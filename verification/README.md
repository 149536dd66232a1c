# mlrs-backend

Machine-learning passes on a compute device, with their logic verified in Verus:
what an operand must look like, how work is split into blocks, strips and
launches, which path a shape takes, what is drawn from a seed, and how partial
results are ordered and merged.

## Layout

- `src/` is the verified library. Floating-point values appear in it as IEEE-754
  bit patterns, which it orders and moves but never adds up; a device launch
  appears as its grid and block; a flag of the environment as an optional text.
- `app/` runs the passes: floating-point arithmetic, device memory, launches and
  threads around the library's plans and decisions. The device itself is the
  trait `Runtime`.
- `tests/` runs the library on concrete values.

## Modules of the library

| Module | What it holds |
| --- | --- |
| `arith`, `seqs`, `matrix`, `chunks`, `launch`, `flag`, `error`, `backend` | integers, sequences, layouts, launch grids, flags, errors |
| `float_order`, `radix`, `ranking` | orders on bit patterns, sorting, ranking |
| `rng` | the seeded generator, bounded draws, permutations, projections |
| `reduce` | reductions over passes of cubes, first extremes |
| `incremental_svd`, `kernel_matrix`, `laplacian`, `mutual_reachability`, `nnls`, `normal_eq`, `ridge_gcv` | plans of dense passes |
| `kmeans` | assignment, centroid sums, empty clusters, seeding |
| `knn`, `knn_host`, `radius`, `radius_host` | nearest and fixed-radius neighbours |
| `lbfgs` | the line search and the stopping rules of a minimization |
| `linear_predict` | predictions and predictive deviations |
| `random_forest` | sampling, thresholds, build plan and schedule, model, out-of-bag scores |
| `ransac_host`, `ransac_device` | consensus scans |

Statements that relate several functions stand as public `lemma_` functions next
to the definitions they speak of.
