use rustronomy::{shape_error, Corners, GridError, VectorGrid2D};

fn sample_grid() -> VectorGrid2D<i64> {
    // 3 nodes along x, 2 along y; node (i, j) holds 10 * j + i in bx.
    let bx = vec![0, 1, 2, 10, 11, 12];
    let by = vec![100, 101, 102, 110, 111, 112];
    VectorGrid2D::new(0, 2, 0, 1, 3, 2, bx, by)
}

#[test]
fn shape_error_names_the_first_failing_check() {
    assert_eq!(shape_error(1, 2, 2, 2), Some(GridError::NxTooSmall));
    assert_eq!(shape_error(1, 1, 0, 0), Some(GridError::NxTooSmall));
    assert_eq!(shape_error(2, 1, 2, 2), Some(GridError::NyTooSmall));
    assert_eq!(shape_error(2, 2, 3, 4), Some(GridError::BxLength));
    assert_eq!(shape_error(2, 2, 3, 3), Some(GridError::BxLength));
    assert_eq!(shape_error(2, 2, 4, 3), Some(GridError::ByLength));
    assert_eq!(shape_error(2, 2, 4, 4), None);
    assert_eq!(shape_error(16, 16, 256, 256), None);
}

#[test]
fn shape_error_on_overflowing_node_count() {
    assert_eq!(shape_error(usize::MAX, 2, usize::MAX, usize::MAX), Some(GridError::BxLength));
}

#[test]
fn grid_error_messages() {
    assert_eq!(GridError::NxTooSmall.message(), "nx must be at least 2");
    assert_eq!(GridError::NyTooSmall.message(), "ny must be at least 2");
    assert_eq!(GridError::BxLength.message(), "bx length must be nx * ny");
    assert_eq!(GridError::ByLength.message(), "by length must be nx * ny");
}

#[test]
fn new_keeps_its_arguments() {
    let bx = vec![1.0, 1.0, 1.0, 1.0];
    let by = vec![0.0, 0.0, 0.0, 0.0];
    let grid = VectorGrid2D::new(0.0, 1.0, 0.0, 1.0, 2, 2, bx, by);
    assert_eq!(grid.nx, 2);
    assert_eq!(grid.ny, 2);
    assert_eq!(grid.x_min, 0.0);
    assert_eq!(grid.x_max, 1.0);
    assert_eq!(grid.bx, vec![1.0, 1.0, 1.0, 1.0]);
    assert_eq!(grid.by, vec![0.0, 0.0, 0.0, 0.0]);
    assert!(grid.is_well_formed());
}

#[test]
fn well_formedness_follows_the_fields() {
    let mut grid = sample_grid();
    assert!(grid.is_well_formed());
    grid.bx.push(7);
    assert!(!grid.is_well_formed());
    grid.bx.pop();
    grid.ny = 3;
    assert!(!grid.is_well_formed());
}

#[test]
fn cell_clamps_to_the_last_cell() {
    let grid = sample_grid();
    assert_eq!(grid.cell(0, 0), (0, 0));
    assert_eq!(grid.cell(1, 0), (1, 0));
    // A point on the upper edge (index nx - 1) uses the last cell.
    assert_eq!(grid.cell(2, 1), (1, 0));
    // A saturated index from a far-off coordinate is pulled back too.
    assert_eq!(grid.cell(usize::MAX, usize::MAX), (1, 0));
}

#[test]
fn flat_index_is_fortran_order() {
    let grid = sample_grid();
    assert_eq!(grid.flat_index(0, 0), 0);
    assert_eq!(grid.flat_index(2, 0), 2);
    assert_eq!(grid.flat_index(0, 1), 3);
    assert_eq!(grid.flat_index(2, 1), 5);
    // Every slot belongs to exactly one node.
    let mut seen = vec![false; 6];
    for j in 0..2 {
        for i in 0..3 {
            let k = grid.flat_index(i, j);
            assert!(!seen[k]);
            seen[k] = true;
            assert_eq!(k % 3, i);
            assert_eq!(k / 3, j);
        }
    }
    assert!(seen.iter().all(|s| *s));
}

#[test]
fn corners_read_both_components() {
    let grid = sample_grid();
    let (bx, by) = grid.corners(1, 0);
    assert_eq!(bx, Corners { c00: 1, c10: 2, c01: 11, c11: 12 });
    assert_eq!(by, Corners { c00: 101, c10: 102, c01: 111, c11: 112 });
    let (bx, _) = grid.corners(0, 0);
    assert_eq!(bx, Corners { c00: 0, c10: 1, c01: 10, c11: 11 });
}

#[test]
fn corners_of_the_clamped_cell_on_the_edge() {
    let grid = sample_grid();
    let (i, j) = grid.cell(2, 1);
    let (bx, by) = grid.corners(i, j);
    assert_eq!(bx.c11, 12);
    assert_eq!(by.c11, 112);
}

#[test]
fn longer_sample_arrays_still_read() {
    // Two extra samples per component: every cell is still readable.
    let grid = VectorGrid2D {
        x_min: 0,
        x_max: 1,
        y_min: 0,
        y_max: 1,
        nx: 2,
        ny: 2,
        bx: vec![1, 2, 3, 4, 5],
        by: vec![6, 7, 8, 9, 10],
    };
    assert!(!grid.is_well_formed());
    let (i, j) = grid.cell(0, 0);
    assert!(grid.can_read_cell(i, j));
    let (bx, by) = grid.corners(i, j);
    assert_eq!(bx, Corners { c00: 1, c10: 2, c01: 3, c11: 4 });
    assert_eq!(by, Corners { c00: 6, c10: 7, c01: 8, c11: 9 });
}

#[test]
fn short_sample_arrays_are_reported() {
    let mut grid = sample_grid();
    assert!(grid.can_read_cell(0, 0));
    assert!(grid.can_read_cell(1, 0));
    assert!(!grid.can_read_cell(2, 0));
    assert!(!grid.can_read_cell(0, 1));
    grid.by.pop();
    // The first cell still reads slots 0, 1, 3, 4; the second needs slot 5.
    assert!(grid.can_read_cell(0, 0));
    assert!(!grid.can_read_cell(1, 0));
    assert!(!grid.can_read_cell(usize::MAX, usize::MAX));
}
