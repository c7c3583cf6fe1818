# parallel_labs

Sorting and square-matrix multiplication, verified with Verus, together with
the programs that run them on threads and under MPI.

- `src/` is the verified library:
  - `order`: the keys that can be sorted (`SortKey`), sortedness,
    rearrangement (multiset equality), and the check `is_sorted`;
  - `quicksort`: Lomuto `partition` and in-place quicksort;
  - `mergesort`: `merge` of two runs and in-place top-down mergesort;
  - `distributed_sort`: how the input is cut into worker chunks and how the
    sorted chunks are merged back;
  - `sorting`: the shuffled input of the sorting benchmark;
  - `matrix`: `SquareMx` (row-major), transpose, rows, text form;
  - `mxmul`: the product, row blocks of the product, how rows are shared
    out among workers, and how their blocks are assembled;
  - `random`: the calls into `rand`.
- `app/` holds the programs: the restaurant simulation, the threaded
  variants of the algorithms, and the MPI coordinators and workers.
- `tests/` runs the library on concrete inputs.

The sorts work on any `SortKey` (implemented for `u16` and `u32`): the
sorting benchmark sorts `u16` keys, the distributed one `u32` keys.

The programs check the library's preconditions before calling it: matrix
products are computed only when `dim * max1 * max2` (the largest entries of
the two factors) fits in a `u32`, which bounds every entry of the product.
