//! Field-line tracing on a regular two-dimensional vector grid.
//!
//! The library keeps the integer and structural side of the tracer:
//! grid shapes and flattened indexing (`grid`), the stepping loop that
//! grows a path point by point and the closed-loop rule (`trace`), and the
//! checks on a field-line request and the assembly of field lines from a
//! forward and a backward trace (`fieldlines`). The numerical step itself
//! is supplied by the caller as a closure.

pub mod fieldlines;
pub mod grid;
pub mod trace;

pub use fieldlines::{
    check_axes, check_field_lengths, field_line, find_lines, pair_footpoints,
    integration_defaults, join_line, FieldlineError, DEFAULT_MAX_STEPS,
};
pub use grid::{shape_error, Corners, GridError, VectorGrid2D};
pub use trace::{trace, trace_until_close};
