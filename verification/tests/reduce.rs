use lib::error::Error;
use lib::op::{Identity, ReductionOp, SumU32, UnaryOp};
use lib::device::Transform;
use lib::output::Zip;
use lib::runtime::ExecutorIds;
use lib::reduce::{reduce, reduce_pass, TILE_SIZE};

type Seven = (u32, u32, u32, u32, u32, u32, u32);

#[derive(Clone, Copy)]
struct Double;

impl UnaryOp<u32> for Double {
    type Output = u32;

    fn spec_apply(input: u32) -> u32 {
        Self::apply(input)
    }

    fn apply(input: u32) -> u32 {
        input * 2
    }
}

#[derive(Clone, Copy)]
struct AddPair;

impl UnaryOp<(u32, u32)> for AddPair {
    type Output = u32;

    fn spec_apply(input: (u32, u32)) -> u32 {
        Self::apply(input)
    }

    fn apply(input: (u32, u32)) -> u32 {
        input.0 + input.1
    }
}

struct AddTriple;

impl UnaryOp<((u32, u32), u32)> for AddTriple {
    type Output = u32;

    fn spec_apply(input: ((u32, u32), u32)) -> u32 {
        Self::apply(input)
    }

    fn apply(input: ((u32, u32), u32)) -> u32 {
        input.0 .0 + input.0 .1 + input.1
    }
}

struct AddFour;

impl UnaryOp<(((u32, u32), u32), u32)> for AddFour {
    type Output = u32;

    fn spec_apply(input: (((u32, u32), u32), u32)) -> u32 {
        Self::apply(input)
    }

    fn apply(input: (((u32, u32), u32), u32)) -> u32 {
        input.0 .0 .0 + input.0 .0 .1 + input.0 .1 + input.1
    }
}

struct AddSeven;

impl ReductionOp<Seven> for AddSeven {
    fn combine(lhs: Seven, rhs: Seven) -> Seven {
        Self::apply(lhs, rhs)
    }

    fn associative(_a: Seven, _b: Seven, _c: Seven) {}

    fn apply(lhs: Seven, rhs: Seven) -> Seven {
        (
            lhs.0 + rhs.0,
            lhs.1 + rhs.1,
            lhs.2 + rhs.2,
            lhs.3 + rhs.3,
            lhs.4 + rhs.4,
            lhs.5 + rhs.5,
            lhs.6 + rhs.6,
        )
    }
}

#[test]
fn dispatch_a1_storage1_fuses_column_transform_reduce() {
    let len = 4097;
    let input = lib::transform::map(&vec![1_u32; len], Double);
    assert_eq!(reduce(&input, 7, SumU32), 7 + 2 * len as u32);
}

#[test]
fn dispatch_a2_storage1_fuses_binary_zip_transform_reduce() {
    let len = 4097;
    let input = lib::transform::map(&vec![(1_u32, 2_u32); len], AddPair);
    assert_eq!(reduce(&input, 0, SumU32), 3 * len as u32);
}

#[test]
fn dispatch_a3_storage1_uses_flat_zip_semantics() {
    let len = 4097;
    let input = lib::transform::map(&vec![((1_u32, 2_u32), 3_u32); len], AddTriple);
    assert_eq!(reduce(&input, 0, SumU32), 6 * len as u32);
}

#[test]
fn empty_reduce_returns_init_without_launching_or_staging() {
    let input = lib::transform::map(&Vec::<u32>::new(), Identity);
    assert_eq!(reduce(&input, 42, SumU32), 42);
}

#[test]
fn zip_length_mismatch_is_rejected_before_launch() {
    let mut ids = ExecutorIds::new();
    let exec = ids.create();
    let left = exec.to_device(&[1_u32, 2]);
    let right = exec.to_device(&[3_u32]);
    let input = Transform::new(Zip::new(left, right), AddPair);
    assert!(matches!(
        lib::device::reduce(&exec, &input, 0, SumU32),
        Err(Error::LengthMismatch { left: 2, right: 1 })
    ));
}

#[test]
fn device_reduce_fuses_a_transform_and_rejects_foreign_columns() {
    let mut ids = ExecutorIds::new();
    let exec = ids.create();
    let left = exec.to_device(&[1_u32, 2, 3]);
    let right = exec.to_device(&[10_u32, 20, 30]);
    let input = Transform::new(Zip::new(left, right), AddPair);
    assert_eq!(lib::device::reduce(&exec, &input, 4, SumU32), Ok(70));
    let doubled = lib::device::map(&exec, &input, Double).unwrap();
    assert_eq!(exec.to_host(&doubled), Ok(vec![22, 44, 66]));

    let other = ids.create();
    assert_eq!(lib::device::reduce(&other, &input, 4, SumU32), Err(Error::ForeignExecutor));
    assert!(matches!(lib::device::map(&other, &input, Double), Err(Error::ForeignExecutor)));
}

#[test]
fn dispatch_a4_storage1_is_a_regular_evaluator_path() {
    let input = lib::transform::map(&vec![(((1_u32, 2_u32), 3_u32), 4_u32); 513], AddFour);
    assert_eq!(reduce(&input, 5, SumU32), 5 + 10 * 513);
}

#[test]
fn dispatch_a8_storage7_reduces_semantic_item_with_physical_leaf_partials() {
    let len = TILE_SIZE * 2 + 17;
    let input: Vec<Seven> = vec![(1, 2, 3, 4, 5, 6, 7); len];
    let output = reduce(&input, (10, 20, 30, 40, 50, 60, 70), AddSeven);
    let n = len as u32;
    assert_eq!(output, (10 + n, 20 + 2 * n, 30 + 3 * n, 40 + 4 * n, 50 + 5 * n, 60 + 6 * n, 70 + 7 * n));
}

#[test]
fn reduce_crosses_tiles_in_operand_order() {
    let input: Vec<u32> = (0..(TILE_SIZE as u32 + 5)).collect();
    let expected = input.iter().fold(3_u32, |acc, &x| acc.wrapping_add(x));
    assert_eq!(reduce(&input, 3, SumU32), expected);
}

#[test]
fn reduce_pass_gives_one_partial_per_started_tile() {
    let input: Vec<u32> = vec![1; 2 * TILE_SIZE + 3];
    let partials = reduce_pass::<u32, SumU32>(&input);
    assert_eq!(partials, vec![TILE_SIZE as u32, TILE_SIZE as u32, 3]);
    let single = reduce_pass::<u32, SumU32>(&vec![9]);
    assert_eq!(single, vec![9]);
}
