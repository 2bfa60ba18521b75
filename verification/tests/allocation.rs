use lib::op::Identity;
use lib::output::Zip;
use lib::runtime::ExecutorIds;
use lib::selection::fill;

fn columns(rows: &[(u32, f32, i32)]) -> (Vec<u32>, Vec<f32>, Vec<i32>) {
    (rows.iter().map(|r| r.0).collect(), rows.iter().map(|r| r.1).collect(), rows.iter().map(|r| r.2).collect())
}

#[test]
fn alloc_stores_a_flat_row_in_independent_columns() {
    let mut ids = ExecutorIds::new();
    let exec = ids.create();
    let a = exec.to_device(&[1_u32, 2, 3]);
    let b = exec.to_device(&[10_f32, 20.0, 30.0]);
    let c = exec.to_device(&[-1_i32, -2, -3]);
    let input = Zip::new(Zip::new(a, b), c);
    let storage = lib::device::map(&exec, &input, Identity).unwrap();

    let rows: Vec<(u32, f32, i32)> =
        exec.to_host(&storage).unwrap().into_iter().map(|((a, b), c)| (a, b, c)).collect();
    let (a, b, c) = columns(&rows);
    assert_eq!(a, vec![1, 2, 3]);
    assert_eq!(b, vec![10.0, 20.0, 30.0]);
    assert_eq!(c, vec![-1, -2, -3]);
}

#[test]
fn fill_writes_and_exposes_flat_columns() {
    let mut ids = ExecutorIds::new();
    let exec = ids.create();
    let mut rows: Vec<(u32, f32, i32)> = vec![(0, 0.0, 0); 2];
    fill((7, 3.5, -2), &mut rows);
    let storage = exec.adopt(rows);
    let (a, b, c) = columns(&exec.to_host(&storage).unwrap());

    assert_eq!(a, vec![7, 7]);
    assert_eq!(b, vec![3.5, 3.5]);
    assert_eq!(c, vec![-2, -2]);
}
