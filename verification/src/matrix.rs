//! A matrix as a mathematical value, the matrices that a flat buffer holds
//! under each layout, and where a packed triangle keeps a cell.
use crate::scalar::{functional, is_zero, zero, Scalar};
use vstd::prelude::*;

verus! {

/// A matrix as a mathematical value: `rows` rows of `cols` cells each.
pub struct Matrix<T> {
    /// Number of rows.
    pub rows: nat,
    /// Number of columns.
    pub cols: nat,
    /// The rows, each a sequence of `cols` cells.
    pub cells: Seq<Seq<T>>,
}

impl<T> Matrix<T> {
    /// The cells have the shape that `rows` and `cols` give.
    pub open spec fn wf(self) -> bool {
        &&& self.cells.len() == self.rows
        &&& forall|i: int| 0 <= i < self.rows ==> (#[trigger] self.cells[i]).len() == self.cols
    }

    /// The cell in row `i` and column `j`.
    pub open spec fn at(self, i: int, j: int) -> T {
        self.cells[i][j]
    }

    /// Row `i`.
    pub open spec fn row(self, i: int) -> Seq<T> {
        self.cells[i]
    }

    /// Column `j`.
    pub open spec fn col(self, j: int) -> Seq<T> {
        Seq::new(self.rows, |i: int| self.cells[i][j])
    }

    /// Rows and columns exchanged.
    pub open spec fn transposed(self) -> Matrix<T> {
        Matrix {
            rows: self.cols,
            cols: self.rows,
            cells: Seq::new(self.cols, |i: int| Seq::new(self.rows, |j: int| self.cells[j][i])),
        }
    }

    /// Row `i` of the result is row `row_order[i]` of this matrix, column `j`
    /// of the result is column `col_order[j]`.
    pub open spec fn permuted(self, row_order: Seq<usize>, col_order: Seq<usize>) -> Matrix<T> {
        Matrix {
            rows: row_order.len(),
            cols: col_order.len(),
            cells: Seq::new(
                row_order.len(),
                |i: int|
                    Seq::new(
                        col_order.len(),
                        |j: int| self.cells[row_order[i] as int][col_order[j] as int],
                    ),
            ),
        }
    }

    /// Row `i` of the result is row `row_order[i]` of this matrix.
    pub open spec fn row_permuted(self, row_order: Seq<usize>) -> Matrix<T> {
        Matrix {
            rows: row_order.len(),
            cols: self.cols,
            cells: Seq::new(row_order.len(), |i: int| self.cells[row_order[i] as int]),
        }
    }

    /// Column `j` of the result is column `col_order[j]` of this matrix.
    pub open spec fn col_permuted(self, col_order: Seq<usize>) -> Matrix<T> {
        Matrix {
            rows: self.rows,
            cols: col_order.len(),
            cells: Seq::new(
                self.rows,
                |i: int| Seq::new(col_order.len(), |j: int| self.cells[i][col_order[j] as int]),
            ),
        }
    }
}

/// Every entry of `order` is below `bound`.
pub open spec fn all_below(order: Seq<usize>, bound: nat) -> bool {
    forall|i: int| 0 <= i < order.len() ==> (#[trigger] order[i]) < bound
}

/// The matrix that a row-major buffer holds.
pub open spec fn full_matrix<T>(data: Seq<T>, rows: nat, cols: nat) -> Matrix<T> {
    Matrix {
        rows,
        cols,
        cells: Seq::new(rows, |i: int| Seq::new(cols, |j: int| data[i * cols + j])),
    }
}

/// The cells that a row-major buffer holds; none of them is masked.
pub open spec fn full_cells<T>(data: Seq<T>, rows: nat, cols: nat) -> Matrix<Option<T>> {
    Matrix {
        rows,
        cols,
        cells: Seq::new(rows, |i: int| Seq::new(cols, |j: int| Some(data[i * cols + j]))),
    }
}

/// The cells of a packed upper triangle: those on and below the diagonal
/// are masked.
pub open spec fn upper_cells<T>(data: Seq<T>, n: nat) -> Matrix<Option<T>> {
    Matrix {
        rows: n,
        cols: n,
        cells: Seq::new(
            n,
            |i: int|
                Seq::new(
                    n,
                    |j: int|
                        if i < j {
                            Some(data[packed_upper(n as int, i, j)])
                        } else {
                            None
                        },
                ),
        ),
    }
}

/// The cells of a packed lower triangle: those on and above the diagonal
/// are masked.
pub open spec fn lower_cells<T>(data: Seq<T>, n: nat) -> Matrix<Option<T>> {
    Matrix {
        rows: n,
        cols: n,
        cells: Seq::new(
            n,
            |i: int|
                Seq::new(
                    n,
                    |j: int|
                        if j < i {
                            Some(data[packed_lower(i, j)])
                        } else {
                            None
                        },
                ),
        ),
    }
}

/// The value that a cell shows: its own, or zero where it is masked.
pub open spec fn shown<T: Scalar>(cell: Option<T>) -> T {
    match cell {
        Some(value) => value,
        None => zero::<T>(),
    }
}

/// The matrix of the values that the cells show.
pub open spec fn filled<T: Scalar>(cells: Matrix<Option<T>>) -> Matrix<T> {
    Matrix {
        rows: cells.rows,
        cols: cells.cols,
        cells: Seq::new(
            cells.rows,
            |i: int| Seq::new(cells.cols, |j: int| shown(cells.cells[i][j])),
        ),
    }
}

/// `value` is what reading `cell` gives: the value of the cell, or a zero
/// where the cell is masked.
pub open spec fn reads<T: Scalar>(cell: Option<T>, value: T) -> bool {
    match cell {
        Some(stored) => value == stored,
        None => is_zero(value),
    }
}

/// `0 + 1 + ... + n`.
pub open spec fn triangle(n: int) -> int
    decreases n,
{
    if n <= 0 {
        0
    } else {
        triangle(n - 1) + n
    }
}

/// Length of the packed buffer of an `n` by `n` triangular matrix.
pub open spec fn packed_len(n: int) -> int {
    n * (n - 1) / 2
}

/// Place of cell `(i, j)`, `i < j`, in the packed upper triangle of an `n`
/// by `n` matrix.
pub open spec fn packed_upper(n: int, i: int, j: int) -> int {
    i * n - i * (i + 1) / 2 + (j - i - 1)
}

/// Place of cell `(i, j)`, `j < i`, in a packed lower triangle.
pub open spec fn packed_lower(i: int, j: int) -> int {
    i * (i - 1) / 2 + j
}

/// The matrix that a packed upper triangle holds: zero on and below the
/// diagonal.
pub open spec fn upper_matrix<T: Scalar>(data: Seq<T>, n: nat) -> Matrix<T> {
    Matrix {
        rows: n,
        cols: n,
        cells: Seq::new(
            n,
            |i: int|
                Seq::new(
                    n,
                    |j: int|
                        if i < j {
                            data[packed_upper(n as int, i, j)]
                        } else {
                            zero::<T>()
                        },
                ),
        ),
    }
}

/// The matrix that a packed lower triangle holds: zero on and above the
/// diagonal.
pub open spec fn lower_matrix<T: Scalar>(data: Seq<T>, n: nat) -> Matrix<T> {
    Matrix {
        rows: n,
        cols: n,
        cells: Seq::new(
            n,
            |i: int|
                Seq::new(
                    n,
                    |j: int|
                        if j < i {
                            data[packed_lower(i, j)]
                        } else {
                            zero::<T>()
                        },
                ),
        ),
    }
}

/// Two matrices of one shape with the same value in every cell are equal.
pub proof fn lemma_matrix_ext<T>(a: Matrix<T>, b: Matrix<T>)
    requires
        a.wf(),
        b.wf(),
        a.rows == b.rows,
        a.cols == b.cols,
        forall|i: int, j: int|
            0 <= i < a.rows && 0 <= j < a.cols ==> #[trigger] a.cells[i][j] == b.cells[i][j],
    ensures
        a == b,
{
    assert forall|i: int| 0 <= i < a.rows implies #[trigger] a.cells[i] == b.cells[i] by {
        assert(a.cells[i] =~= b.cells[i]);
    }
    assert(a.cells =~= b.cells);
}

/// Where the operations of the element type are functions, reading a cell
/// gives the value that the cell shows.
pub proof fn lemma_reads_shown<T: Scalar>(cell: Option<T>, value: T)
    requires
        functional::<T>(),
        reads(cell, value),
    ensures
        value == shown(cell),
{
}

/// What the cells of each layout show.
pub proof fn lemma_filled_layouts<T: Scalar>(data: Seq<T>, rows: nat, cols: nat)
    ensures
        filled(full_cells(data, rows, cols)) == full_matrix(data, rows, cols),
        filled(upper_cells(data, rows)) == upper_matrix(data, rows),
        filled(lower_cells(data, rows)) == lower_matrix(data, rows),
{
    lemma_matrix_ext(filled(full_cells(data, rows, cols)), full_matrix(data, rows, cols));
    lemma_matrix_ext(filled(upper_cells(data, rows)), upper_matrix(data, rows));
    lemma_matrix_ext(filled(lower_cells(data, rows)), lower_matrix(data, rows));
}

/// Showing the cells and rearranging them can be done in either order.
pub proof fn lemma_filled_rearranged<T: Scalar>(
    cells: Matrix<Option<T>>,
    row_order: Seq<usize>,
    col_order: Seq<usize>,
)
    requires
        cells.wf(),
        all_below(row_order, cells.rows),
        all_below(col_order, cells.cols),
    ensures
        filled(cells).wf(),
        filled(cells.transposed()) == filled(cells).transposed(),
        filled(cells.permuted(row_order, col_order)) == filled(cells).permuted(
            row_order,
            col_order,
        ),
        filled(cells.row_permuted(row_order)) == filled(cells).row_permuted(row_order),
        filled(cells.col_permuted(col_order)) == filled(cells).col_permuted(col_order),
{
    lemma_matrix_ext(filled(cells.transposed()), filled(cells).transposed());
    lemma_matrix_ext(
        filled(cells.permuted(row_order, col_order)),
        filled(cells).permuted(row_order, col_order),
    );
    lemma_matrix_ext(filled(cells.row_permuted(row_order)), filled(cells).row_permuted(row_order));
    lemma_matrix_ext(filled(cells.col_permuted(col_order)), filled(cells).col_permuted(col_order));
}

/// Transposing exchanges the two indices of every cell, and transposing
/// twice gives the matrix back.
pub proof fn lemma_transposed<T>(m: Matrix<T>)
    requires
        m.wf(),
    ensures
        m.transposed().wf(),
        forall|i: int, j: int|
            0 <= i < m.cols && 0 <= j < m.rows ==> #[trigger] m.transposed().at(i, j) == m.at(j, i),
        m.transposed().transposed() == m,
{
    let t = m.transposed();
    lemma_matrix_ext(t.transposed(), m);
}

/// Reordering rows and columns at once is reordering the rows and then the
/// columns, or the columns and then the rows; and the transpose of a
/// reordered matrix is the transpose reordered with the two orders
/// exchanged.
pub proof fn lemma_permuted<T>(m: Matrix<T>, row_order: Seq<usize>, col_order: Seq<usize>)
    requires
        m.wf(),
        all_below(row_order, m.rows),
        all_below(col_order, m.cols),
    ensures
        m.permuted(row_order, col_order).wf(),
        m.permuted(row_order, col_order) == m.row_permuted(row_order).col_permuted(col_order),
        m.permuted(row_order, col_order) == m.col_permuted(col_order).row_permuted(row_order),
        m.permuted(row_order, col_order).transposed() == m.transposed().permuted(
            col_order,
            row_order,
        ),
{
    let both = m.permuted(row_order, col_order);
    lemma_matrix_ext(both, m.row_permuted(row_order).col_permuted(col_order));
    lemma_matrix_ext(both, m.col_permuted(col_order).row_permuted(row_order));
    lemma_matrix_ext(both.transposed(), m.transposed().permuted(col_order, row_order));
}

/// The order that takes item `i` from place `second[i]` of the order `first`.
pub open spec fn composed(first: Seq<usize>, second: Seq<usize>) -> Seq<usize> {
    Seq::new(second.len(), |i: int| first[second[i] as int])
}

/// Reordering the rows twice is reordering them once, by the composed
/// order.
pub proof fn lemma_row_permuted_twice<T>(m: Matrix<T>, first: Seq<usize>, second: Seq<usize>)
    requires
        m.wf(),
        all_below(first, m.rows),
        all_below(second, first.len()),
    ensures
        all_below(composed(first, second), m.rows),
        m.row_permuted(first).row_permuted(second) == m.row_permuted(composed(first, second)),
{
    lemma_matrix_ext(
        m.row_permuted(first).row_permuted(second),
        m.row_permuted(composed(first, second)),
    );
}

/// A packed upper triangle masks the cells on and below the diagonal, which
/// show zero, and holds cell `(i, j)` above it at place
/// `i * n - i * (i + 1) / 2 + (j - i - 1)` of the buffer.
pub proof fn lemma_upper_matrix<T: Scalar>(data: Seq<T>, n: nat, i: int, j: int)
    requires
        0 <= i < n,
        0 <= j < n,
    ensures
        i >= j ==> upper_cells(data, n).at(i, j) is None,
        i >= j ==> upper_matrix(data, n).at(i, j) == zero::<T>(),
        i < j ==> 0 <= i * n - i * (i + 1) / 2 + (j - i - 1) < n * (n - 1) / 2,
        i < j ==> upper_cells(data, n).at(i, j) == Some(
            data[i * n - i * (i + 1) / 2 + (j - i - 1)],
        ),
        i < j ==> upper_matrix(data, n).at(i, j) == data[i * n - i * (i + 1) / 2 + (j - i - 1)],
{
    if i < j {
        lemma_packed_upper(n as int, i, j);
    }
}

/// The closed form of a triangular number.
pub proof fn lemma_triangle(n: int)
    requires
        0 <= n,
    ensures
        2 * triangle(n) == n * (n + 1),
        triangle(n) == n * (n + 1) / 2,
        triangle(n) >= 0,
    decreases n,
{
    if n > 0 {
        lemma_triangle(n - 1);
        assert((n - 1) * n + 2 * n == n * (n + 1)) by (nonlinear_arith);
    } else {
        assert(n * (n + 1) == 0) by (nonlinear_arith)
            requires
                n == 0,
        ;
    }
}

/// Triangular numbers grow.
pub proof fn lemma_triangle_monotonic(a: int, b: int)
    requires
        0 <= a <= b,
    ensures
        triangle(a) <= triangle(b),
    decreases b - a,
{
    if a < b {
        lemma_triangle_monotonic(a, b - 1);
    }
}

/// The place of a cell above the diagonal lies inside the packed buffer.
pub proof fn lemma_packed_upper(n: int, i: int, j: int)
    requires
        0 <= i < j < n,
    ensures
        0 <= packed_upper(n, i, j) < packed_len(n),
        packed_upper(n, i, j) == triangle(n - 1) - triangle(n - 1 - i) + (j - i - 1),
        i * (i + 1) / 2 <= i * n,
{
    lemma_triangle(i);
    lemma_triangle(n - 1);
    lemma_triangle(n - 1 - i);
    lemma_triangle(n - 2 - i);
    lemma_triangle_monotonic(n - 2 - i, n - 2 - i);
    let t = triangle(i);
    let full = triangle(n - 1);
    let below = triangle(n - 1 - i);
    assert((n - 1) * n == n * (n - 1)) by (nonlinear_arith);
    assert(packed_len(n) == full);
    // rows i..n-1 hold `below` cells, so the rows before row i hold `full - below`
    assert(2 * (i * n - t) == 2 * (full - below)) by (nonlinear_arith)
        requires
            2 * t == i * (i + 1),
            2 * full == (n - 1) * n,
            2 * below == (n - 1 - i) * (n - i),
    ;
    assert(below == triangle(n - 2 - i) + (n - 1 - i));
    assert(i * n >= t) by (nonlinear_arith)
        requires
            2 * t == i * (i + 1),
            0 <= i < n,
    ;
}

/// The place of a cell below the diagonal lies inside the packed buffer.
pub proof fn lemma_packed_lower(n: int, i: int, j: int)
    requires
        0 <= j < i < n,
    ensures
        0 <= packed_lower(i, j) < packed_len(n),
        packed_lower(i, j) == triangle(i - 1) + j,
{
    lemma_triangle(i - 1);
    lemma_triangle(i);
    lemma_triangle(n - 1);
    lemma_triangle_monotonic(i, n - 1);
    assert((i - 1) * i == i * (i - 1)) by (nonlinear_arith);
    assert((n - 1) * n == n * (n - 1)) by (nonlinear_arith);
}

} // verus!
