# slowest_quicksort

Lomuto quicksort over the range `low ..= high` of a vector, in several
representations of the same data, each proved with Verus.

- `src/model.rs` — what sorted and rearranged mean, the Lomuto partition as a
  spec function, and the lemmas about it.
- `src/normal.rs`, `src/boxed.rs`, `src/realloc.rs` — the sort on a plain
  vector, on boxed vectors of boxed integers, and on fresh copies at each step;
  each sorts the range and leaves everything else in place.
- `src/locked_no_threads.rs` — the sort for elements that sit behind locks,
  on `(value, handle)` pairs: it sorts the range by value and moves the
  handles with their values, exactly as Lomuto quicksort places them.
- `src/laws.rs` — uniqueness of the sorted result, idempotence, kept elements,
  and the boxed sorts and partitions agreeing with the plain ones.
- `app/lib.rs` — the locked, threaded and thread-pool sorts on
  `Arc<Mutex<..>>` vectors and bounds, built on the verified sort.
