use nalgebra::DMatrix;
use vstd::prelude::*;

verus! {

/// A dense table of slot numbers, stored in a `DMatrix` of nalgebra.
///
/// The verifier does not look inside: what it knows of a grid is
/// [`grid_cells`], and of the functions below what their contracts say.
#[verifier::external_body]
pub struct SlotGrid {
    cells: DMatrix<usize>,
}

/// The cells of a grid, row by row: one sequence for each row of the matrix,
/// with one number for each of its columns.
pub uninterp spec fn grid_cells(grid: SlotGrid) -> Seq<Seq<usize>>;

/// Whether a grid of `dim` rows and `dim` columns can be asked for: the bytes
/// of its cells, at most 8 for each, are no more than a vector may hold.
pub open spec fn grid_fits(dim: usize) -> bool {
    dim * dim * 8 <= isize::MAX
}

impl SlotGrid {
    /// `DMatrix::zeros(dim, dim)`: a matrix of `dim` rows and `dim` columns
    /// whose cells are all 0. The call multiplies the two dimensions and
    /// collects that many cells into a vector, which panics where the product
    /// or the vector's size in bytes does not fit.
    #[verifier::external_body]
    pub(crate) fn zeros(dim: usize) -> (grid: SlotGrid)
        requires
            grid_fits(dim),
        ensures
            grid_cells(grid) == Seq::new(
                dim as nat,
                |i: int| Seq::new(dim as nat, |j: int| 0usize),
            ),
    {
        SlotGrid { cells: DMatrix::<usize>::zeros(dim, dim) }
    }

    /// `Matrix::nrows`: the number of rows.
    #[verifier::external_body]
    pub(crate) fn rows(&self) -> (rows: usize)
        ensures
            rows == grid_cells(*self).len(),
    {
        self.cells.nrows()
    }

    /// `Index<(usize, usize)>` of `Matrix`: the cell in row `row` and column
    /// `col`. The call panics unless both lie inside the matrix.
    #[verifier::external_body]
    pub(crate) fn get(&self, row: usize, col: usize) -> (slot: usize)
        requires
            row < grid_cells(*self).len(),
            col < grid_cells(*self)[row as int].len(),
        ensures
            slot == grid_cells(*self)[row as int][col as int],
    {
        self.cells[(row, col)]
    }

    /// `IndexMut<(usize, usize)>` of `Matrix`: writes `slot` into the cell in
    /// row `row` and column `col` and leaves every other cell as it was. The
    /// call panics unless both lie inside the matrix.
    #[verifier::external_body]
    pub(crate) fn set(&mut self, row: usize, col: usize, slot: usize)
        requires
            row < grid_cells(*old(self)).len(),
            col < grid_cells(*old(self))[row as int].len(),
        ensures
            grid_cells(*final(self)) == grid_cells(*old(self)).update(
                row as int,
                grid_cells(*old(self))[row as int].update(col as int, slot),
            ),
    {
        self.cells[(row, col)] = slot;
    }
}

} // verus!
