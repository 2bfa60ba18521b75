use lib::error::Error;
use lib::output::{
    ColumnMut, Env0, OutputBindings, OutputExpression, ReadOutput, Slice, SliceOutput, StageOutput, Zip, OUTPUT_SLOTS,
};

#[test]
fn zip_and_slice_report_the_common_length() {
    let left = ColumnMut::<u32>::whole(1, 7, 4);
    let right = ColumnMut::<u32>::whole(2, 7, 4);
    let zip = Zip::new(left, right);
    assert_eq!(zip.logical_len(), Ok(4));
    let slice: Slice<(), _> = Slice::new(zip);
    assert_eq!(slice.logical_len(), Ok(4));
    let inner = slice.into_inner();
    assert_eq!(inner.0.buffer, 1);
}

#[test]
fn slicing_an_output_tree_narrows_every_leaf() {
    let zip = Zip::new(ColumnMut::<u32>::whole(1, 7, 6), ColumnMut::<u32>::whole(2, 7, 6));
    let sliced = zip.slice_output(2, 5);
    assert_eq!(sliced.logical_len(), Ok(3));
    assert_eq!((sliced.0.offset, sliced.0.len), (2, 3));
    assert_eq!((sliced.1.offset, sliced.1.len), (2, 3));
    let read = zip.slice_read(1, 2);
    assert_eq!((read.0.offset, read.0.len, read.1.buffer), (1, 1, 2));
}

#[test]
fn staging_binds_leaves_left_first_and_pads_to_twelve() {
    let zip = Zip::new(ColumnMut::<u32>::whole(1, 7, 4).slice_output(1, 3), ColumnMut::<u32>::whole(2, 7, 5));
    let mut bindings = OutputBindings::new();
    assert_eq!(StageOutput::<Env0>::stage_output(&zip, 7, &mut bindings), Ok(()));
    assert_eq!(bindings.slots, vec![(1, 4), (2, 5)]);
    assert_eq!(bindings.offsets, vec![1, 0]);
    bindings.pad_to_twelve(99);
    assert_eq!(bindings.slots.len(), OUTPUT_SLOTS);
    assert_eq!(bindings.slots[11], (99, 1));
    assert_eq!(bindings.offsets[11], 0);
}

#[test]
fn staging_rejects_a_leaf_of_another_executor() {
    let zip = Zip::new(ColumnMut::<u32>::whole(1, 7, 4), ColumnMut::<u32>::whole(2, 8, 4));
    let mut bindings = OutputBindings::new();
    assert_eq!(StageOutput::<Env0>::stage_output(&zip, 7, &mut bindings), Err(Error::ForeignExecutor));
    assert_eq!(bindings.slots, vec![(1, 4)]);
    assert_eq!(bindings.offsets, vec![0]);
}
