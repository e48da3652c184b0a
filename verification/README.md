# salib

Sampling designs and basis enumeration for variance-based global
sensitivity analysis, written in Verus with their combinatorial structure
proved.

- `src/` — the verified library: the counter-based ChaCha20 generator
  state, Fisher–Yates shuffles, Latin hypercube strata, Sobol' direction
  numbers and Gray-code states (with the stratification of the first `2^m`
  points), FAST frequency assignment, Morris trajectories on the integer
  grid, Plackett–Burman designs (with `XᵀX = N·I`), the Saltelli and Owen
  radial matrices, total-degree multi-index bases, the input checks and
  Sobol' term sets of polynomial chaos fits, the rank step of the
  Iman–Conover transform, and configuration hashes.
- `tests/` — tests on concrete values.
- `app/` — the floating-point front end: unit samples, search curves,
  least-squares and sparse polynomial chaos fits, Shapley effects, active
  subspaces and the analytic test functions.
