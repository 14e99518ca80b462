# t4a_bench

Index, layout and bookkeeping logic of a benchmark of tensor-train
arithmetic on quantics grids, verified with Verus.

- `src/` is the verified library: grid-index bit decompositions and fused
  points (`harness`), the product arms and their record tokens
  (`elementwise`), pivot selection, parameter counts and cached-shape checks
  (`gaussian_input`, `gaussian3d_input`), the byte format of the
  integrated-mixture cache (`integrated_gaussian`), the direct-product size
  budget (`mpo_contract`), and the patch bookkeeping of the patched products
  (`patched`, `patched_mpo`). Each public function carries its contract; the
  proof functions named `lemma_*` that are public state the library's laws.
- `tests/` runs the library on concrete values.
- `app/` holds the benchmark runners: the floating-point fields, the
  tensor4all tensor-network calls, timing, and JSON and HDF5 output.
