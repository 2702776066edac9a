# rustronomy

Field-line tracing on a regular two-dimensional vector grid, with Python
bindings.

- `src/` is the verified library: grid shapes and Fortran-order indexing
  (`grid`), the stepping loop with its closed-loop rule (`trace`), and the
  request checks and the assembly of field lines from a forward and a
  backward trace (`fieldlines`). Each public function carries a contract
  proved by Verus; the numerical step is a closure supplied by the caller.
- `app/` holds what Verus does not take: the floating-point bilinear
  interpolation and Runge-Kutta step, and the `pyo3`/`numpy` bindings
  (`trace_fieldlines`, `find_fieldlines`).
- `tests/` runs the library on concrete grids and paths.
