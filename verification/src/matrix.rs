use crate::grid::{grid_cells, grid_fits, SlotGrid};
use crate::scalar::Scalar;
use vstd::prelude::*;

verus! {

/// Why a matrix could not be built.
#[derive(Debug, Clone, Copy, PartialEq, Eq)]
pub enum MatrixError {
    /// The dimension asked for is odd.
    InvalidDimension,
    /// The number of values is not that of the pairs above the diagonal:
    /// `expected` were needed for the dimension, `actual` were given.
    InvalidValueCount { expected: u128, actual: usize },
}

/// The place of the pair `(i, j)`, `i < j`, among the pairs above the diagonal
/// of a matrix of dimension `dim`, counted row by row from 0: the rows before
/// row `i` hold `dim - 1`, `dim - 2`, ... pairs, and `(i, j)` is the
/// `j - i - 1`-th of its own row.
pub open spec fn pair_rank(dim: int, i: int, j: int) -> int {
    i * (2 * dim - i - 1) / 2 + (j - i - 1)
}

/// The number of pairs above the diagonal of a matrix of dimension `dim`.
pub open spec fn pair_count(dim: int) -> int {
    dim * (dim - 1) / 2
}

/// The skew-symmetric matrix of dimension `dim` whose entries above the
/// diagonal are `values`, row by row; below the diagonal stand their
/// opposites, on it zero.
pub open spec fn skew_from<S: Scalar>(dim: nat, values: Seq<S>) -> Seq<Seq<S>> {
    Seq::new(
        dim,
        |i: int|
            Seq::new(
                dim,
                |j: int|
                    if i < j {
                        values[pair_rank(dim as int, i, j)]
                    } else if j < i {
                        values[pair_rank(dim as int, j, i)].spec_negate()
                    } else {
                        S::spec_zero()
                    },
            ),
    )
}

/// Whether `m` is square of even dimension, zero on its diagonal, and holds
/// below the diagonal the opposite of what stands above it.
pub open spec fn is_skew<S: Scalar>(m: Seq<Seq<S>>) -> bool {
    &&& m.len() % 2 == 0
    &&& forall|i: int| 0 <= i < m.len() ==> (#[trigger] m[i]).len() == m.len()
    &&& forall|i: int| 0 <= i < m.len() ==> (#[trigger] m[i])[i] == S::spec_zero()
    &&& forall|i: int, j: int|
        0 <= i < j < m.len() ==> #[trigger] m[j][i] == (#[trigger] m[i][j]).spec_negate()
}

/// The product `i * (2 * dim - i - 1)` is even.
proof fn lemma_twice_row_start_even(dim: int, i: int)
    ensures
        (i * (2 * dim - i - 1)) % 2 == 0,
{
    if i % 2 == 0 {
        let q = i / 2;
        assert(i * (2 * dim - i - 1) == 2 * (q * (2 * dim - i - 1))) by (nonlinear_arith)
            requires
                i == 2 * q,
        ;
    } else {
        let q = dim - (i + 1) / 2;
        assert(i * (2 * dim - i - 1) == 2 * (i * q)) by (nonlinear_arith)
            requires
                2 * dim - i - 1 == 2 * q,
        ;
    }
}

/// The first pair of row `i + 1` comes right after the last pair of row `i`.
proof fn lemma_next_row(dim: int, i: int)
    ensures
        pair_rank(dim, i + 1, i + 2) == pair_rank(dim, i, dim),
{
    lemma_twice_row_start_even(dim, i);
    lemma_twice_row_start_even(dim, i + 1);
    assert((i + 1) * (2 * dim - (i + 1) - 1) == i * (2 * dim - i - 1) + 2 * (dim - 1 - i))
        by (nonlinear_arith);
}

/// The first pair of row `i` does not come after the end of the list.
proof fn lemma_rows_left(dim: int, i: int)
    requires
        0 <= i <= dim,
    ensures
        pair_rank(dim, i, i + 1) <= pair_count(dim),
    decreases dim - i,
{
    if i == dim {
        assert(dim * (2 * dim - dim - 1) == dim * (dim - 1)) by (nonlinear_arith);
    } else {
        lemma_rows_left(dim, i + 1);
        lemma_next_row(dim, i);
    }
}

/// Every pair above the diagonal has its place among the `pair_count(dim)`.
pub proof fn lemma_pair_rank_bounds(dim: int, i: int, j: int)
    requires
        0 <= i < j < dim,
    ensures
        0 <= pair_rank(dim, i, j) < pair_count(dim),
{
    lemma_rows_left(dim, i + 1);
    lemma_next_row(dim, i);
    assert(0 <= i * (2 * dim - i - 1)) by (nonlinear_arith)
        requires
            0 <= i < dim,
    ;
}

/// Counts the pairs above the diagonal of a matrix of dimension `n`.
pub fn pairs_above_diagonal(n: usize) -> (count: u128)
    ensures
        count == pair_count(n as int),
{
    if n == 0 {
        proof {
            assert(n * (n - 1) == 0) by (nonlinear_arith)
                requires
                    n == 0,
            ;
        }
        0
    } else {
        proof {
            assert(0 <= n * (n - 1) <= 0xffff_ffff_ffff_ffff * 0xffff_ffff_ffff_ffff)
                by (nonlinear_arith)
                requires
                    1 <= n <= 0xffff_ffff_ffff_ffff,
            ;
        }
        (n as u128) * ((n - 1) as u128) / 2
    }
}

/// The slot number that the cell `(a, b)` holds once the pairs before `(i, j)`
/// have been written: 0 for the diagonal and for a pair not yet written, else
/// the odd slot of the pair above the diagonal and the even one below it.
spec fn cell_after(dim: int, i: int, j: int, a: int, b: int) -> int {
    if a < b {
        if a < i || (a == i && b < j) {
            2 * pair_rank(dim, a, b) + 1
        } else {
            0
        }
    } else if b < a {
        if b < i || (b == i && a < j) {
            2 * pair_rank(dim, b, a) + 2
        } else {
            0
        }
    } else {
        0
    }
}

/// Whether `cells` is the square table of dimension `dim` in which the pairs
/// before `(i, j)` have been written.
spec fn cells_written(cells: Seq<Seq<usize>>, dim: int, i: int, j: int) -> bool {
    &&& cells.len() == dim
    &&& forall|a: int| 0 <= a < dim ==> (#[trigger] cells[a]).len() == dim
    &&& forall|a: int, b: int|
        0 <= a < dim && 0 <= b < dim ==> (#[trigger] cells[a][b]) as int == cell_after(
            dim,
            i,
            j,
            a,
            b,
        )
}

/// Whether `slots` holds zero, then each of the first `count` values followed
/// by its opposite.
spec fn slots_written<S: Scalar>(slots: Seq<S>, values: Seq<S>, count: int) -> bool {
    &&& slots.len() == 1 + 2 * count
    &&& slots[0] == S::spec_zero()
    &&& forall|r: int|
        0 <= r < count ==> slots[2 * r + 1] == #[trigger] values[r] && slots[2 * r + 2]
            == values[r].spec_negate()
}

/// The entries that a table of scalars and a grid of slot numbers stand for.
spec fn entries_of<S: Scalar>(slots: Seq<S>, cells: Seq<Seq<usize>>) -> Seq<Seq<S>> {
    Seq::new(cells.len(), |i: int| Seq::new(cells[i].len(), |j: int| slots[cells[i][j] as int]))
}

/// The matrix built from a list of values is skew-symmetric.
pub proof fn lemma_skew_from_is_skew<S: Scalar>(dim: nat, values: Seq<S>)
    requires
        dim % 2 == 0,
    ensures
        is_skew(skew_from(dim, values)),
{
}

/// A dense skew-symmetric matrix of even dimension.
///
/// The scalars stand in a table: zero first, then each value above the
/// diagonal followed by its opposite. A grid of slot numbers says for each
/// cell which of them it holds; the grid is a dense matrix of nalgebra, which
/// so holds plain integers whatever the scalars are.
pub struct SkewMatrix<S: Scalar> {
    slots: Vec<S>,
    cells: SlotGrid,
}

impl<S: Scalar> View for SkewMatrix<S> {
    type V = Seq<Seq<S>>;

    /// The entries, row by row.
    closed spec fn view(&self) -> Seq<Seq<S>> {
        entries_of(self.slots@, grid_cells(self.cells))
    }
}

impl<S: Scalar> SkewMatrix<S> {
    #[verifier::type_invariant]
    spec fn well_formed(self) -> bool {
        let cells = grid_cells(self.cells);
        &&& forall|a: int| 0 <= a < cells.len() ==> (#[trigger] cells[a]).len() == cells.len()
        &&& forall|a: int, b: int|
            0 <= a < cells.len() && 0 <= b < cells.len() ==> (#[trigger] cells[a][b])
                < self.slots@.len()
        &&& is_skew(self@)
    }

    /// Builds the matrix of dimension `n` from the entries above its diagonal,
    /// given row by row: those that join index 0 with the indices 1, 2, ...,
    /// then those that join index 1 with the indices 2, 3, ..., and so on.
    ///
    /// An odd dimension is refused, and so is a number of values other than
    /// that of the pairs above the diagonal. Where neither is the case, the
    /// dimension must be one whose grid of cells the machine can hold.
    pub fn from_upper_triangle(n: usize, values: &[S]) -> (built: Result<Self, MatrixError>)
        requires
            n % 2 == 0 && values@.len() == pair_count(n as int) ==> grid_fits(n),
        ensures
            n % 2 != 0 ==> built == Err::<Self, MatrixError>(MatrixError::InvalidDimension),
            n % 2 == 0 && values@.len() != pair_count(n as int) ==> built == Err::<
                Self,
                MatrixError,
            >(
                MatrixError::InvalidValueCount {
                    expected: pair_count(n as int) as u128,
                    actual: values@.len() as usize,
                },
            ),
            n % 2 == 0 && values@.len() == pair_count(n as int) ==> built is Ok
                && built->Ok_0@ == skew_from(n as nat, values@),
            built is Ok ==> is_skew(built->Ok_0@),
    {
        if n % 2 != 0 {
            return Err(MatrixError::InvalidDimension);
        }
        let expected = pairs_above_diagonal(n);
        if values.len() as u128 != expected {
            return Err(MatrixError::InvalidValueCount { expected, actual: values.len() });
        }
        proof {
            assert(0 <= n * (n - 1) <= n * n <= n * n * 8) by (nonlinear_arith)
                requires
                    0 <= n,
            ;
        }
        let mut cells = SlotGrid::zeros(n);
        let mut slots: Vec<S> = Vec::new();
        slots.push(S::zero());
        let mut next: usize = 0;
        let mut i: usize = 0;
        while i < n
            invariant
                i <= n,
                grid_fits(n),
                values@.len() == pair_count(n as int),
                next == pair_rank(n as int, i as int, i + 1),
                cells_written(grid_cells(cells), n as int, i as int, i + 1),
                slots_written(slots@, values@, next as int),
            decreases n - i,
        {
            let mut j: usize = i + 1;
            while j < n
                invariant
                    i < n,
                    i < j <= n,
                    grid_fits(n),
                    values@.len() == pair_count(n as int),
                    next == pair_rank(n as int, i as int, j as int),
                    cells_written(grid_cells(cells), n as int, i as int, j as int),
                    slots_written(slots@, values@, next as int),
                decreases n - j,
            {
                proof {
                    lemma_pair_rank_bounds(n as int, i as int, j as int);
                    assert(0 <= n * (n - 1) <= n * n <= n * n * 8) by (nonlinear_arith)
                        requires
                            0 <= n,
                    ;
                }
                let value = values[next];
                slots.push(value);
                slots.push(value.negate());
                cells.set(i, j, 2 * next + 1);
                cells.set(j, i, 2 * next + 2);
                next = next + 1;
                j = j + 1;
            }
            proof {
                lemma_next_row(n as int, i as int);
            }
            i = i + 1;
        }
        proof {
            let dim = n as nat;
            let target = skew_from::<S>(dim, values@);
            let entries = entries_of(slots@, grid_cells(cells));
            assert forall|a: int| 0 <= a < dim implies #[trigger] entries[a] =~= target[a] by {
                assert forall|b: int| 0 <= b < dim implies entries[a][b] == target[a][b] by {
                    if a < b {
                        lemma_pair_rank_bounds(dim as int, a, b);
                    } else if b < a {
                        lemma_pair_rank_bounds(dim as int, b, a);
                    }
                }
            }
            assert(entries =~= target);
            lemma_skew_from_is_skew(dim, values@);
            assert forall|a: int, b: int| 0 <= a < dim && 0 <= b < dim implies (
            #[trigger] grid_cells(cells)[a][b]) < slots@.len() by {
                if a < b {
                    lemma_pair_rank_bounds(dim as int, a, b);
                } else if b < a {
                    lemma_pair_rank_bounds(dim as int, b, a);
                }
            }
        }
        let built = SkewMatrix { slots, cells };
        Ok(built)
    }

    /// The number of rows, which is that of the columns.
    pub fn dimension(&self) -> (n: usize)
        ensures
            n == self@.len(),
            is_skew(self@),
    {
        proof {
            use_type_invariant(self);
        }
        self.cells.rows()
    }

    /// The entry in row `row` and column `col`.
    pub fn entry(&self, row: usize, col: usize) -> (e: S)
        requires
            row < self@.len(),
            col < self@.len(),
        ensures
            e == self@[row as int][col as int],
    {
        proof {
            use_type_invariant(self);
        }
        let slot = self.cells.get(row, col);
        self.slots[slot]
    }
}

} // verus!
