use vstd::prelude::*;

verus! {

/// Why a set of dimensions and sample counts cannot describe a grid.
#[derive(Debug, Clone, Copy, PartialEq, Eq, Structural)]
pub enum GridError {
    /// Fewer than two nodes along x.
    NxTooSmall,
    /// Fewer than two nodes along y.
    NyTooSmall,
    /// `bx` does not hold exactly `nx * ny` samples.
    BxLength,
    /// `by` does not hold exactly `nx * ny` samples.
    ByLength,
}

impl GridError {
    /// The panic message that goes with the error.
    pub fn message(&self) -> (m: &'static str)
        ensures
            *self == GridError::NxTooSmall ==> m@ == "nx must be at least 2"@,
            *self == GridError::NyTooSmall ==> m@ == "ny must be at least 2"@,
            *self == GridError::BxLength ==> m@ == "bx length must be nx * ny"@,
            *self == GridError::ByLength ==> m@ == "by length must be nx * ny"@,
    {
        match self {
            GridError::NxTooSmall => "nx must be at least 2",
            GridError::NyTooSmall => "ny must be at least 2",
            GridError::BxLength => "bx length must be nx * ny",
            GridError::ByLength => "by length must be nx * ny",
        }
    }
}

/// Dimensions and sample counts that make a grid: at least two nodes in
/// each direction and one sample of each component per node.
pub open spec fn shape_ok(nx: int, ny: int, bx_len: int, by_len: int) -> bool {
    &&& nx >= 2
    &&& ny >= 2
    &&& bx_len == nx * ny
    &&& by_len == nx * ny
}

/// The first shape check that fails, in the order the grid checks them.
pub open spec fn shape_error_of(nx: int, ny: int, bx_len: int, by_len: int) -> Option<GridError> {
    if nx < 2 {
        Some(GridError::NxTooSmall)
    } else if ny < 2 {
        Some(GridError::NyTooSmall)
    } else if bx_len != nx * ny {
        Some(GridError::BxLength)
    } else if by_len != nx * ny {
        Some(GridError::ByLength)
    } else {
        None
    }
}

/// Slot of node `(i, j)` in the flattened component arrays: `i` runs
/// fastest (Fortran order for an array shaped `(nx, ny)`).
pub open spec fn flat_index_of(nx: int, i: int, j: int) -> int {
    j * nx + i
}

/// Checks the dimensions of a grid before it is built; `None` exactly
/// when `VectorGrid2D::new` accepts them.
pub fn shape_error(nx: usize, ny: usize, bx_len: usize, by_len: usize) -> (r: Option<GridError>)
    ensures
        r == shape_error_of(nx as int, ny as int, bx_len as int, by_len as int),
        r is None <==> shape_ok(nx as int, ny as int, bx_len as int, by_len as int),
{
    if nx < 2 {
        return Some(GridError::NxTooSmall);
    }
    if ny < 2 {
        return Some(GridError::NyTooSmall);
    }
    match nx.checked_mul(ny) {
        None => Some(GridError::BxLength),
        Some(n) => {
            if bx_len != n {
                Some(GridError::BxLength)
            } else if by_len != n {
                Some(GridError::ByLength)
            } else {
                None
            }
        },
    }
}

/// Every node of an `nx` by `ny` grid has a slot below `nx * ny`, and the
/// node is recovered from its slot: `i` as the remainder, `j` as the
/// quotient by `nx`.
pub proof fn lemma_flat_index_in_range(nx: int, ny: int, i: int, j: int)
    requires
        nx >= 1,
        ny >= 1,
        0 <= i < nx,
        0 <= j < ny,
    ensures
        0 <= flat_index_of(nx, i, j) < nx * ny,
        flat_index_of(nx, i, j) % nx == i,
        flat_index_of(nx, i, j) / nx == j,
{
    assert(0 <= j * nx) by (nonlinear_arith)
        requires
            0 <= j,
            nx >= 1,
    ;
    assert(j * nx + i < nx * ny) by (nonlinear_arith)
        requires
            0 <= i < nx,
            0 <= j < ny,
    ;
    vstd::arithmetic::div_mod::lemma_fundamental_div_mod_converse(j * nx + i, nx, j, i);
}

/// Every slot below `nx * ny` belongs to a node of the grid.
pub proof fn lemma_flat_index_covers(nx: int, ny: int, k: int)
    requires
        nx >= 1,
        ny >= 1,
        0 <= k < nx * ny,
    ensures
        0 <= k % nx < nx,
        0 <= k / nx < ny,
        flat_index_of(nx, k % nx, k / nx) == k,
{
    vstd::arithmetic::div_mod::lemma_fundamental_div_mod(k, nx);
    assert(0 <= k % nx < nx) by (nonlinear_arith)
        requires
            nx >= 1,
    ;
    assert(k / nx * nx == nx * (k / nx)) by (nonlinear_arith);
    assert(0 <= k / nx < ny) by (nonlinear_arith)
        requires
            nx >= 1,
            0 <= k < nx * ny,
            k == nx * (k / nx) + k % nx,
            0 <= k % nx < nx,
    ;
}

/// The four samples of one component at the corners of a cell, named by
/// their offsets along x and y from the cell's lower corner.
#[derive(Debug, PartialEq)]
pub struct Corners<T> {
    pub c00: T,
    pub c10: T,
    pub c01: T,
    pub c11: T,
}

/// A two-component field sampled on a regular `nx` by `ny` grid over the
/// box `[x_min, x_max] x [y_min, y_max]`; `bx` and `by` hold one sample
/// per node, node `(i, j)` at slot `j * nx + i`.
pub struct VectorGrid2D<T> {
    pub x_min: T,
    pub x_max: T,
    pub y_min: T,
    pub y_max: T,
    pub nx: usize,
    pub ny: usize,
    pub bx: Vec<T>,
    pub by: Vec<T>,
}

impl<T> VectorGrid2D<T> {
    /// The grid's dimensions agree with its sample arrays.
    pub open spec fn wf(&self) -> bool {
        shape_ok(self.nx as int, self.ny as int, self.bx.len() as int, self.by.len() as int)
    }

    /// Builds a grid from its bounds, dimensions and samples. The caller
    /// checks the shape first (see `shape_error`).
    pub fn new(
        x_min: T,
        x_max: T,
        y_min: T,
        y_max: T,
        nx: usize,
        ny: usize,
        bx: Vec<T>,
        by: Vec<T>,
    ) -> (g: Self)
        requires
            shape_ok(nx as int, ny as int, bx.len() as int, by.len() as int),
        ensures
            g.wf(),
            g.x_min == x_min,
            g.x_max == x_max,
            g.y_min == y_min,
            g.y_max == y_max,
            g.nx == nx,
            g.ny == ny,
            g.bx@ == bx@,
            g.by@ == by@,
    {
        VectorGrid2D { x_min, x_max, y_min, y_max, nx, ny, bx, by }
    }

    /// Whether the dimensions still agree with the sample arrays.
    pub fn is_well_formed(&self) -> (r: bool)
        ensures
            r == self.wf(),
    {
        shape_error(self.nx, self.ny, self.bx.len(), self.by.len()).is_none()
    }

    /// Both components hold a sample for every node of a grid of at least
    /// two by two nodes; they may hold more.
    pub open spec fn covers_nodes(&self) -> bool {
        &&& self.nx >= 2
        &&& self.ny >= 2
        &&& self.bx.len() >= self.nx * self.ny
        &&& self.by.len() >= self.nx * self.ny
    }

    /// The cell whose lower corner is node `(i, j)` lies in the grid and
    /// the slots of its four corners lie in both sample arrays; the upper
    /// right corner `(i + 1, j + 1)` has the highest of the four slots.
    pub open spec fn cell_readable(&self, i: int, j: int) -> bool {
        &&& 0 <= i
        &&& 0 <= j
        &&& i + 1 < self.nx
        &&& j + 1 < self.ny
        &&& flat_index_of(self.nx as int, i + 1, j + 1) < self.bx.len()
        &&& flat_index_of(self.nx as int, i + 1, j + 1) < self.by.len()
    }

    /// On a grid whose arrays hold a sample for every node, every cell is
    /// readable.
    pub proof fn lemma_covering_grid_cells_readable(&self, i: int, j: int)
        requires
            self.covers_nodes(),
            0 <= i,
            0 <= j,
            i + 1 < self.nx,
            j + 1 < self.ny,
        ensures
            self.cell_readable(i, j),
    {
        lemma_flat_index_in_range(self.nx as int, self.ny as int, i + 1, j + 1);
    }

    /// The cell whose lower corner is node `(i, j)`, pulled back inside
    /// the grid: an index at or past the last node selects the last cell
    /// along that axis, so a point on the upper edge still has a cell.
    pub fn cell(&self, i: usize, j: usize) -> (c: (usize, usize))
        requires
            self.nx >= 2,
            self.ny >= 2,
        ensures
            c.0 == (if i >= self.nx - 1 { (self.nx - 2) as usize } else { i }),
            c.1 == (if j >= self.ny - 1 { (self.ny - 2) as usize } else { j }),
            c.0 + 1 < self.nx,
            c.1 + 1 < self.ny,
    {
        let ci = if i >= self.nx - 1 { self.nx - 2 } else { i };
        let cj = if j >= self.ny - 1 { self.ny - 2 } else { j };
        (ci, cj)
    }

    /// Slot of node `(i, j)` in `bx` and `by`.
    pub fn flat_index(&self, i: usize, j: usize) -> (k: usize)
        requires
            i < self.nx,
            j < self.ny,
            flat_index_of(self.nx as int, i as int, j as int) <= usize::MAX,
        ensures
            k == flat_index_of(self.nx as int, i as int, j as int),
    {
        assert(0 <= j * self.nx <= j * self.nx + i) by (nonlinear_arith)
            requires
                0 <= j,
                0 <= self.nx,
                0 <= i,
        ;
        j * self.nx + i
    }

    /// Whether the four corners of the cell at node `(i, j)` can be read
    /// (see `cell_readable`).
    pub fn can_read_cell(&self, i: usize, j: usize) -> (r: bool)
        ensures
            r == self.cell_readable(i as int, j as int),
    {
        if i >= self.nx || j >= self.ny {
            return false;
        }
        if i + 1 >= self.nx || j + 1 >= self.ny {
            return false;
        }
        let top = match (j + 1).checked_mul(self.nx) {
            Some(row) => row.checked_add(i + 1),
            None => None,
        };
        match top {
            Some(k) => k < self.bx.len() && k < self.by.len(),
            None => false,
        }
    }

    /// The samples of both components at the four corners of the cell
    /// whose lower corner is node `(i, j)`.
    pub fn corners(&self, i: usize, j: usize) -> (r: (Corners<T>, Corners<T>)) where T: Copy
        requires
            self.cell_readable(i as int, j as int),
        ensures
            r.0.c00 == self.bx@[flat_index_of(self.nx as int, i as int, j as int)],
            r.0.c10 == self.bx@[flat_index_of(self.nx as int, i + 1, j as int)],
            r.0.c01 == self.bx@[flat_index_of(self.nx as int, i as int, j + 1)],
            r.0.c11 == self.bx@[flat_index_of(self.nx as int, i + 1, j + 1)],
            r.1.c00 == self.by@[flat_index_of(self.nx as int, i as int, j as int)],
            r.1.c10 == self.by@[flat_index_of(self.nx as int, i + 1, j as int)],
            r.1.c01 == self.by@[flat_index_of(self.nx as int, i as int, j + 1)],
            r.1.c11 == self.by@[flat_index_of(self.nx as int, i + 1, j + 1)],
    {
        let ghost nx = self.nx as int;
        assert(0 <= j * nx && (j + 1) * nx == j * nx + nx) by (nonlinear_arith)
            requires
                0 <= j,
                0 <= nx,
        ;
        let k00 = self.flat_index(i, j);
        let k10 = self.flat_index(i + 1, j);
        let k01 = self.flat_index(i, j + 1);
        let k11 = self.flat_index(i + 1, j + 1);
        let bx = Corners { c00: self.bx[k00], c10: self.bx[k10], c01: self.bx[k01], c11: self.bx[k11] };
        let by = Corners { c00: self.by[k00], c10: self.by[k10], c01: self.by[k01], c11: self.by[k11] };
        (bx, by)
    }
}

} // verus!
