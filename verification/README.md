# spmspm_pim

Cycle models of sparse matrix multiplication on processing-in-memory DRAM,
with their contracts proved.

- `src/` is the library. Each module states what its functions compute over
  spec functions and proves it:
  - `gearbox`, `gearbox_rounds`: the gearbox design (subarrays, rings between
    the banks of a layer, TSVs between layers), run at once or in rounds;
    `gearbox_refined`: the subarray whose writes cost the column distance;
  - `dispatch`, `split`, `sparse_vec`, `sparse`: how the products of a row are
    placed, column blocks of a matrix, sparse vector addition;
  - `same_bank`, `same_bank_weighted`, `same_subarray`: where rows and dense
    results are stored;
  - `jump` and its submodules, `remote_updator`, `row_cycle`, `action`: the
    jump models of the one-hot row walkers;
  - `algorithms`: the frontiers of BFS, SSSP, SpMM and PageRank;
  - `bits`, `event`, `evil_filter`, `overlap`, `resource`, `results`,
    `transpose`: small pieces the models share.
- `tests/` runs the library on concrete values.
- `app/` reads matrices and configurations, runs the models and prints the
  results; it also makes the floating-point bank cut of the weighted mapping.
