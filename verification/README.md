# massively (verified library)

Parallel-algorithm primitives in the style of Thrust, over flat columns held
by an executor: map, scan, reduction, selection, partition, indexed movement,
sorting, merging, ordered multiset operations, by-key algorithms, and
segment-wise variants of all of them over CSR-style offsets.

Every algorithm is executable Rust whose result is stated in its contract and
proved by Verus. The algorithms are block-structured: scans add block
prefixes computed by a recursive scan of block totals, reductions reduce tile partials until one
remains, merges cut both inputs along the merge path and merge each tile on
its own, and selections scan flags to give each kept item its position.

Layout:

- `src/op.rs` — the operation traits users implement (`UnaryOp`, `ExpandOp`,
  `PredicateOp`, `BinaryPredicateOp`, `StrictWeakOrder`, `ReductionOp`) and
  a few ready-made operations.
- `src/scan.rs`, `src/reduce.rs`, `src/predicate.rs`, `src/selection.rs`,
  `src/transform.rs`, `src/indexed.rs` — vector algorithms.
- `src/merge.rs`, `src/sort.rs`, `src/set.rs`, `src/ordering.rs`,
  `src/search.rs` — ordering algorithms.
- `src/by_key.rs` — algorithms over runs of equal keys.
- `src/seg/` — segmentations (lengths, ids and offsets) and the segment
  algorithms run through `ForEachSegment`.
- `src/device.rs` — the vector algorithms over an executor's columns, views
  of columns, zips and lazy inputs (transform, permute, reverse, constant,
  counting), writing into columns, writable windows of columns and zips: they
  reject columns of unequal length and columns of another executor. A
  writable window (`slice_mut`) holds its column while algorithms write to it
  and hands it back with `into_column`; only the window's items change.
- `src/runtime.rs`, `src/output.rs` — executors (created with distinct
  identities by `ExecutorIds`), owned columns and their views, output trees
  and the binding of their leaves.
- `src/error.rs` — the error type and the text that describes each error.
- `app/` — a displayable error report built on that text.
