# herculaneum_mls_cubecl

Counting-sort cell grid and control logic for moving-least-squares midpoint
projection of point clouds, verified with Verus.

- `src/` is the verified library. It never does floating-point arithmetic:
  coordinates are carried as their IEEE 754 binary32 encodings, and every
  decision on them (finiteness, sign, numeric and total order) is a decision
  on the encoding. It holds the arena (`MlsArena`), its construction from
  points (counting sort, within-cell z-y-x order) and from an imported grid
  (every structural check), the walk over the cells around a query, the
  z-y-x/x-y-z reordering of vertex buffers, the input checks of a
  projection, and backend selection by id, name and environment setting.
- `app/` is ordinary Rust around it: the floating-point MLS kernel (Wendland
  weights, compensated sums, covariance, Jacobi eigen-solve, tangent-plane
  projection), the float geometry that feeds the binning (origin, cells per
  axis, clamped cell coordinates), the C ABI, and the benchmark drivers.
- `tests/` exercises the library on concrete values.
