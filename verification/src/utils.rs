//! Views of a flat buffer as a matrix: full, packed triangular, transposed
//! or permuted, none of which copies the buffer.
use crate::error::ClusterError;
use crate::matrix::{
    all_below, filled, full_cells, full_matrix, lemma_filled_layouts, lemma_filled_rearranged,
    lemma_matrix_ext, lemma_packed_lower, lemma_packed_upper, lemma_reads_shown, lower_cells,
    lower_matrix, packed_len, packed_lower, packed_upper, reads, upper_cells, upper_matrix,
    Matrix,
};
use crate::scalar::{functional, Scalar};
use vstd::prelude::*;

verus! {

/// How a view finds a cell in its buffer.
#[derive(Debug)]
enum Mapping<'a, T> {
    Full,
    UpperTriangular,
    LowerTriangular,
    Transposed(&'a MatrixView<'a, T>),
    RowPermuted(&'a MatrixView<'a, T>, &'a [usize]),
    ColPermuted(&'a MatrixView<'a, T>, &'a [usize]),
    Permuted(&'a MatrixView<'a, T>, &'a [usize], &'a [usize]),
}

/// A read-only matrix over a borrowed flat buffer. A view built on another
/// view shares its buffer and composes the two index mappings.
#[derive(Debug)]
pub struct MatrixView<'a, T> {
    data: &'a [T],
    nrows: usize,
    ncols: usize,
    mapping: Mapping<'a, T>,
}

impl<'a, T: Scalar> View for MatrixView<'a, T> {
    type V = Matrix<T>;

    /// The matrix that the view shows: a masked cell shows zero.
    open spec fn view(&self) -> Matrix<T> {
        filled(self.cells())
    }
}

impl<'a, T: Scalar> MatrixView<'a, T> {
    /// The place in the buffer of cell `(i, j)`, `None` for a masked cell.
    closed spec fn slot(&self, i: int, j: int) -> Option<int>
        decreases self,
    {
        match self.mapping {
            Mapping::Full => Some(i * self.ncols + j),
            Mapping::UpperTriangular => if i < j {
                Some(packed_upper(self.nrows as int, i, j))
            } else {
                None
            },
            Mapping::LowerTriangular => if j < i {
                Some(packed_lower(i, j))
            } else {
                None
            },
            Mapping::Transposed(source) => source.slot(j, i),
            Mapping::RowPermuted(source, row_order) => source.slot(row_order@[i] as int, j),
            Mapping::ColPermuted(source, col_order) => source.slot(i, col_order@[j] as int),
            Mapping::Permuted(source, row_order, col_order) => source.slot(
                row_order@[i] as int,
                col_order@[j] as int,
            ),
        }
    }

    /// What the buffer holds for cell `(i, j)`, `None` for a masked cell.
    closed spec fn stored(&self, i: int, j: int) -> Option<T> {
        match self.slot(i, j) {
            Some(k) => Some(self.data@[k]),
            None => None,
        }
    }

    /// The cells of the view: for each what the buffer holds for it, `None`
    /// where a triangular layout masks it.
    pub closed spec fn cells(&self) -> Matrix<Option<T>> {
        Matrix {
            rows: self.nrows as nat,
            cols: self.ncols as nat,
            cells: Seq::new(
                self.nrows as nat,
                |i: int| Seq::new(self.ncols as nat, |j: int| self.stored(i, j)),
            ),
        }
    }

    /// The invariant of a view: its shape fits its buffer, and a view built
    /// on another one fits that one.
    pub closed spec fn wf(&self) -> bool
        decreases self,
    {
        match self.mapping {
            Mapping::Full => self.nrows * self.ncols == self.data@.len(),
            Mapping::UpperTriangular => self.nrows == self.ncols && packed_len(self.nrows as int)
                == self.data@.len(),
            Mapping::LowerTriangular => self.nrows == self.ncols && packed_len(self.nrows as int)
                == self.data@.len(),
            Mapping::Transposed(source) => {
                &&& source.wf()
                &&& self.data@ == source.data@
                &&& self.nrows == source.ncols
                &&& self.ncols == source.nrows
            },
            Mapping::RowPermuted(source, row_order) => {
                &&& source.wf()
                &&& self.data@ == source.data@
                &&& self.nrows == row_order@.len()
                &&& self.ncols == source.ncols
                &&& all_below(row_order@, source.nrows as nat)
            },
            Mapping::ColPermuted(source, col_order) => {
                &&& source.wf()
                &&& self.data@ == source.data@
                &&& self.nrows == source.nrows
                &&& self.ncols == col_order@.len()
                &&& all_below(col_order@, source.ncols as nat)
            },
            Mapping::Permuted(source, row_order, col_order) => {
                &&& source.wf()
                &&& self.data@ == source.data@
                &&& self.nrows == row_order@.len()
                &&& self.ncols == col_order@.len()
                &&& all_below(row_order@, source.nrows as nat)
                &&& all_below(col_order@, source.ncols as nat)
            },
        }
    }

    /// The cells of a view, and the matrix that it shows, have the view's
    /// shape.
    pub proof fn lemma_shape(&self)
        ensures
            self.cells().wf(),
            self@.wf(),
            self@.rows == self.cells().rows,
            self@.cols == self.cells().cols,
    {
    }

    /// A cell that is not masked lies inside the buffer.
    proof fn lemma_slot_in_buffer(&self, i: int, j: int)
        requires
            self.wf(),
            0 <= i < self.nrows,
            0 <= j < self.ncols,
        ensures
            self.slot(i, j) matches Some(k) ==> 0 <= k < self.data@.len(),
        decreases self,
    {
        match self.mapping {
            Mapping::Full => {
                assert(0 <= i * self.ncols + j < self.nrows * self.ncols) by (nonlinear_arith)
                    requires
                        0 <= i < self.nrows,
                        0 <= j < self.ncols,
                ;
            },
            Mapping::UpperTriangular => {
                if i < j {
                    lemma_packed_upper(self.nrows as int, i, j);
                }
            },
            Mapping::LowerTriangular => {
                if j < i {
                    lemma_packed_lower(self.nrows as int, i, j);
                }
            },
            Mapping::Transposed(source) => {
                source.lemma_slot_in_buffer(j, i);
            },
            Mapping::RowPermuted(source, row_order) => {
                source.lemma_slot_in_buffer(row_order@[i] as int, j);
            },
            Mapping::ColPermuted(source, col_order) => {
                source.lemma_slot_in_buffer(i, col_order@[j] as int);
            },
            Mapping::Permuted(source, row_order, col_order) => {
                source.lemma_slot_in_buffer(row_order@[i] as int, col_order@[j] as int);
            },
        }
    }

    /// The place in the buffer of cell `(i, j)`.
    fn index_of(&self, i: usize, j: usize) -> (place: Option<usize>)
        requires
            self.wf(),
            i < self.nrows,
            j < self.ncols,
        ensures
            match place {
                Some(k) => self.slot(i as int, j as int) == Some(k as int) && k < self.data@.len(),
                None => self.slot(i as int, j as int) is None,
            },
        decreases self,
    {
        proof {
            self.lemma_slot_in_buffer(i as int, j as int);
            assert(self.data@.len() == self.data.len());
        }
        match &self.mapping {
            Mapping::Full => {
                assert(0 <= i * self.ncols <= i * self.ncols + j < self.nrows * self.ncols)
                    by (nonlinear_arith)
                    requires
                        0 <= i < self.nrows,
                        0 <= j < self.ncols,
                ;
                Some(i * self.ncols + j)
            },
            Mapping::UpperTriangular => {
                if i >= j {
                    None
                } else {
                    Some(packed_upper_index(self.nrows, i, j))
                }
            },
            Mapping::LowerTriangular => {
                if i <= j {
                    None
                } else {
                    Some(packed_lower_index(self.nrows, i, j))
                }
            },
            Mapping::Transposed(source) => source.index_of(j, i),
            Mapping::RowPermuted(source, row_order) => source.index_of(row_order[i], j),
            Mapping::ColPermuted(source, col_order) => source.index_of(i, col_order[j]),
            Mapping::Permuted(source, row_order, col_order) => source.index_of(
                row_order[i],
                col_order[j],
            ),
        }
    }

    /// The buffer read as `nrows` rows of `ncols` cells, row after row.
    pub fn new(data: &'a [T], nrows: usize, ncols: usize) -> (view: Result<
        MatrixView<'a, T>,
        ClusterError,
    >)
        ensures
            match view {
                Ok(v) => {
                    &&& nrows * ncols == data@.len()
                    &&& v.wf()
                    &&& v.cells() == full_cells(data@, nrows as nat, ncols as nat)
                    &&& v@ == full_matrix(data@, nrows as nat, ncols as nat)
                },
                Err(e) => {
                    &&& nrows * ncols != data@.len()
                    &&& e == ClusterError::InvalidShape
                },
            },
    {
        if product_differs(nrows, ncols, data.len()) {
            Err(ClusterError::InvalidShape)
        } else {
            let view = MatrixView { data, nrows, ncols, mapping: Mapping::Full };
            proof {
                let want = full_cells(data@, nrows as nat, ncols as nat);
                assert forall|i: int, j: int|
                    0 <= i < want.rows && 0 <= j < want.cols
                    implies #[trigger] view.cells().cells[i][j] == want.cells[i][j] by {
                    assert(view.stored(i, j) == want.cells[i][j]);
                }
                lemma_matrix_ext(view.cells(), want);
                lemma_filled_layouts(data@, nrows as nat, ncols as nat);
            }
            Ok(view)
        }
    }

    /// The buffer read as the packed upper triangle of a square matrix with
    /// a zero diagonal: row 0 from column 1 on, then row 1 from column 2 on,
    /// and so forth.
    pub fn new_upper_triangular(data: &'a [T], nrows: usize, ncols: usize) -> (view: Result<
        MatrixView<'a, T>,
        ClusterError,
    >)
        ensures
            match view {
                Ok(v) => {
                    &&& nrows == ncols
                    &&& packed_len(nrows as int) == data@.len()
                    &&& v.wf()
                    &&& v.cells() == upper_cells(data@, nrows as nat)
                    &&& v@ == upper_matrix(data@, nrows as nat)
                },
                Err(e) => {
                    &&& nrows != ncols || packed_len(nrows as int) != data@.len()
                    &&& e == ClusterError::InvalidShape
                },
            },
    {
        if nrows != ncols || !is_packed_len(nrows, data.len()) {
            Err(ClusterError::InvalidShape)
        } else {
            let view = MatrixView { data, nrows, ncols, mapping: Mapping::UpperTriangular };
            proof {
                let want = upper_cells(data@, nrows as nat);
                assert forall|i: int, j: int|
                    0 <= i < want.rows && 0 <= j < want.cols
                    implies #[trigger] view.cells().cells[i][j] == want.cells[i][j] by {
                    assert(view.stored(i, j) == want.cells[i][j]);
                }
                lemma_matrix_ext(view.cells(), want);
                lemma_filled_layouts(data@, nrows as nat, ncols as nat);
            }
            Ok(view)
        }
    }

    /// The buffer read as the packed lower triangle of a square matrix with
    /// a zero diagonal: row 1 up to column 0, then row 2 up to column 1, and
    /// so forth.
    pub fn new_lower_triangular(data: &'a [T], nrows: usize, ncols: usize) -> (view: Result<
        MatrixView<'a, T>,
        ClusterError,
    >)
        ensures
            match view {
                Ok(v) => {
                    &&& nrows == ncols
                    &&& packed_len(nrows as int) == data@.len()
                    &&& v.wf()
                    &&& v.cells() == lower_cells(data@, nrows as nat)
                    &&& v@ == lower_matrix(data@, nrows as nat)
                },
                Err(e) => {
                    &&& nrows != ncols || packed_len(nrows as int) != data@.len()
                    &&& e == ClusterError::InvalidShape
                },
            },
    {
        if nrows != ncols || !is_packed_len(nrows, data.len()) {
            Err(ClusterError::InvalidShape)
        } else {
            let view = MatrixView { data, nrows, ncols, mapping: Mapping::LowerTriangular };
            proof {
                let want = lower_cells(data@, nrows as nat);
                assert forall|i: int, j: int|
                    0 <= i < want.rows && 0 <= j < want.cols
                    implies #[trigger] view.cells().cells[i][j] == want.cells[i][j] by {
                    assert(view.stored(i, j) == want.cells[i][j]);
                }
                lemma_matrix_ext(view.cells(), want);
                lemma_filled_layouts(data@, nrows as nat, ncols as nat);
            }
            Ok(view)
        }
    }

    /// This view with rows and columns exchanged.
    pub fn transposed(&'a self) -> (view: MatrixView<'a, T>)
        requires
            self.wf(),
        ensures
            view.wf(),
            view.cells() == self.cells().transposed(),
            view@ == self@.transposed(),
    {
        let view = MatrixView {
            data: self.data,
            nrows: self.ncols,
            ncols: self.nrows,
            mapping: Mapping::Transposed(self),
        };
        proof {
            let want = self.cells().transposed();
            assert forall|i: int, j: int|
                0 <= i < want.rows && 0 <= j < want.cols implies #[trigger] view.cells().cells[i][j]
                == want.cells[i][j] by {
                assert(view.stored(i, j) == self.stored(j, i));
            }
            lemma_matrix_ext(view.cells(), want);
            lemma_filled_rearranged(self.cells(), Seq::<usize>::empty(), Seq::<usize>::empty());
        }
        view
    }

    /// This view with its rows in the given order: row `i` of the result is
    /// row `row_order[i]` of this view. The order must have an entry for each
    /// row, and every entry must name a row.
    pub fn row_permutation(&'a self, row_order: &'a [usize]) -> (view: Result<
        MatrixView<'a, T>,
        ClusterError,
    >)
        requires
            self.wf(),
        ensures
            match view {
                Ok(v) => {
                    &&& row_order@.len() == self.cells().rows
                    &&& all_below(row_order@, self.cells().rows)
                    &&& v.wf()
                    &&& v.cells() == self.cells().row_permuted(row_order@)
                    &&& v@ == self@.row_permuted(row_order@)
                },
                Err(e) => {
                    &&& row_order@.len() != self.cells().rows || !all_below(
                        row_order@,
                        self.cells().rows,
                    )
                    &&& e == ClusterError::InvalidShape
                },
            },
    {
        if row_order.len() != self.nrows || !entries_below(row_order, self.nrows) {
            Err(ClusterError::InvalidShape)
        } else {
            let view = MatrixView {
                data: self.data,
                nrows: self.nrows,
                ncols: self.ncols,
                mapping: Mapping::RowPermuted(self, row_order),
            };
            proof {
                let want = self.cells().row_permuted(row_order@);
                assert forall|i: int, j: int|
                    0 <= i < want.rows && 0 <= j < want.cols
                    implies #[trigger] view.cells().cells[i][j] == want.cells[i][j] by {
                    assert(view.stored(i, j) == self.stored(row_order@[i] as int, j));
                }
                lemma_matrix_ext(view.cells(), want);
                lemma_filled_rearranged(self.cells(), row_order@, Seq::<usize>::empty());
            }
            Ok(view)
        }
    }

    /// This view with its columns in the given order: column `j` of the
    /// result is column `col_order[j]` of this view. The order must have an
    /// entry for each column, and every entry must name a column.
    pub fn col_permutation(&'a self, col_order: &'a [usize]) -> (view: Result<
        MatrixView<'a, T>,
        ClusterError,
    >)
        requires
            self.wf(),
        ensures
            match view {
                Ok(v) => {
                    &&& col_order@.len() == self.cells().cols
                    &&& all_below(col_order@, self.cells().cols)
                    &&& v.wf()
                    &&& v.cells() == self.cells().col_permuted(col_order@)
                    &&& v@ == self@.col_permuted(col_order@)
                },
                Err(e) => {
                    &&& col_order@.len() != self.cells().cols || !all_below(
                        col_order@,
                        self.cells().cols,
                    )
                    &&& e == ClusterError::InvalidShape
                },
            },
    {
        if col_order.len() != self.ncols || !entries_below(col_order, self.ncols) {
            Err(ClusterError::InvalidShape)
        } else {
            let view = MatrixView {
                data: self.data,
                nrows: self.nrows,
                ncols: self.ncols,
                mapping: Mapping::ColPermuted(self, col_order),
            };
            proof {
                let want = self.cells().col_permuted(col_order@);
                assert forall|i: int, j: int|
                    0 <= i < want.rows && 0 <= j < want.cols
                    implies #[trigger] view.cells().cells[i][j] == want.cells[i][j] by {
                    assert(view.stored(i, j) == self.stored(i, col_order@[j] as int));
                }
                lemma_matrix_ext(view.cells(), want);
                lemma_filled_rearranged(self.cells(), Seq::<usize>::empty(), col_order@);
            }
            Ok(view)
        }
    }

    /// This view with rows and columns in the given orders: cell `(i, j)` of
    /// the result is cell `(row_order[i], col_order[j])` of this view. Each
    /// order must have an entry for each item of its axis, and every entry
    /// must name one.
    pub fn permutation(&'a self, row_order: &'a [usize], col_order: &'a [usize]) -> (view: Result<
        MatrixView<'a, T>,
        ClusterError,
    >)
        requires
            self.wf(),
        ensures
            match view {
                Ok(v) => {
                    &&& row_order@.len() == self.cells().rows
                    &&& col_order@.len() == self.cells().cols
                    &&& all_below(row_order@, self.cells().rows)
                    &&& all_below(col_order@, self.cells().cols)
                    &&& v.wf()
                    &&& v.cells() == self.cells().permuted(row_order@, col_order@)
                    &&& v@ == self@.permuted(row_order@, col_order@)
                },
                Err(e) => {
                    &&& row_order@.len() != self.cells().rows || col_order@.len()
                        != self.cells().cols || !all_below(row_order@, self.cells().rows)
                        || !all_below(col_order@, self.cells().cols)
                    &&& e == ClusterError::InvalidShape
                },
            },
    {
        if row_order.len() != self.nrows || col_order.len() != self.ncols || !entries_below(
            row_order,
            self.nrows,
        ) || !entries_below(col_order, self.ncols) {
            Err(ClusterError::InvalidShape)
        } else {
            let view = MatrixView {
                data: self.data,
                nrows: self.nrows,
                ncols: self.ncols,
                mapping: Mapping::Permuted(self, row_order, col_order),
            };
            proof {
                let want = self.cells().permuted(row_order@, col_order@);
                assert forall|i: int, j: int|
                    0 <= i < want.rows && 0 <= j < want.cols
                    implies #[trigger] view.cells().cells[i][j] == want.cells[i][j] by {
                    assert(view.stored(i, j) == self.stored(
                        row_order@[i] as int,
                        col_order@[j] as int,
                    ));
                }
                lemma_matrix_ext(view.cells(), want);
                lemma_filled_rearranged(self.cells(), row_order@, col_order@);
            }
            Ok(view)
        }
    }

    /// The cell in row `i` and column `j`; zero where a triangular view is
    /// masked.
    pub fn get(&self, i: usize, j: usize) -> (value: T)
        requires
            self.wf(),
            i < self.cells().rows,
            j < self.cells().cols,
        ensures
            reads(self.cells().at(i as int, j as int), value),
            functional::<T>() ==> value == self@.at(i as int, j as int),
    {
        match self.index_of(i, j) {
            Some(k) => self.data[k],
            None => T::zero(),
        }
    }
}

impl<'a, T: Scalar> vstd::std_specs::core::IndexSpecImpl<(usize, usize)> for MatrixView<'a, T> {
    /// Indexing is for the cells that the buffer holds: a masked cell has no
    /// place to refer to.
    open spec fn index_req(&self, index: &(usize, usize)) -> bool {
        &&& self.wf()
        &&& index.0 < self.cells().rows
        &&& index.1 < self.cells().cols
        &&& self.cells().at(index.0 as int, index.1 as int) is Some
    }
}

impl<'a, T: Scalar> core::ops::Index<(usize, usize)> for MatrixView<'a, T> {
    type Output = T;

    /// The place in the buffer that holds cell `index`.
    fn index(&self, index: (usize, usize)) -> (output: &T)
        ensures
            self.cells().at(index.0 as int, index.1 as int) == Some(*output),
    {
        let place = self.index_of(index.0, index.1);
        &self.data[place.unwrap()]
    }
}

/// Whether every entry of `order` is below `bound`.
fn entries_below(order: &[usize], bound: usize) -> (below: bool)
    ensures
        below == all_below(order@, bound as nat),
{
    let mut i: usize = 0;
    while i < order.len()
        invariant
            i <= order@.len(),
            forall|k: int| 0 <= k < i ==> (#[trigger] order@[k]) < bound,
        decreases order@.len() - i,
    {
        if order[i] >= bound {
            return false;
        }
        i += 1;
    }
    true
}

/// Whether `nrows * ncols` differs from `len`.
fn product_differs(nrows: usize, ncols: usize, len: usize) -> (differs: bool)
    ensures
        differs == (nrows * ncols != len),
{
    proof {
        assert(0 <= nrows * ncols <= 0xffff_ffff_ffff_ffff * 0xffff_ffff_ffff_ffff)
            by (nonlinear_arith)
            requires
                0 <= nrows <= 0xffff_ffff_ffff_ffff,
                0 <= ncols <= 0xffff_ffff_ffff_ffff,
        ;
    }
    (nrows as u128) * (ncols as u128) != len as u128
}

/// Whether `len` is the length of the packed triangle of an `n` by `n` matrix.
fn is_packed_len(n: usize, len: usize) -> (fits: bool)
    ensures
        fits == (packed_len(n as int) == len),
{
    if n == 0 {
        assert(packed_len(0) == 0);
        len == 0
    } else {
        proof {
            assert(0 <= n * (n - 1) <= 0xffff_ffff_ffff_ffff * 0xffff_ffff_ffff_ffff)
                by (nonlinear_arith)
                requires
                    1 <= n <= 0xffff_ffff_ffff_ffff,
            ;
        }
        let wide: u128 = n as u128;
        wide * (wide - 1) / 2 == len as u128
    }
}

/// Computes [`packed_upper`] without overflow.
fn packed_upper_index(n: usize, i: usize, j: usize) -> (place: usize)
    requires
        i < j < n,
        packed_len(n as int) <= usize::MAX,
    ensures
        place == packed_upper(n as int, i as int, j as int),
{
    proof {
        lemma_packed_upper(n as int, i as int, j as int);
        assert(0 <= i * n <= 0xffff_ffff_ffff_ffff * 0xffff_ffff_ffff_ffff) by (nonlinear_arith)
            requires
                0 <= i <= 0xffff_ffff_ffff_ffff,
                0 <= n <= 0xffff_ffff_ffff_ffff,
        ;
        assert(0 <= i * (i + 1) <= 0xffff_ffff_ffff_ffff * 0x1_0000_0000_0000_0000)
            by (nonlinear_arith)
            requires
                0 <= i <= 0xffff_ffff_ffff_ffff,
        ;
    }
    let wide_n: u128 = n as u128;
    let wide_i: u128 = i as u128;
    let wide_j: u128 = j as u128;
    let place: u128 = wide_i * wide_n - wide_i * (wide_i + 1) / 2 + (wide_j - wide_i - 1);
    place as usize
}

/// Computes [`packed_lower`] without overflow.
fn packed_lower_index(n: usize, i: usize, j: usize) -> (place: usize)
    requires
        j < i < n,
        packed_len(n as int) <= usize::MAX,
    ensures
        place == packed_lower(i as int, j as int),
{
    proof {
        lemma_packed_lower(n as int, i as int, j as int);
        assert(0 <= i * (i - 1) <= 0xffff_ffff_ffff_ffff * 0xffff_ffff_ffff_ffff)
            by (nonlinear_arith)
            requires
                1 <= i <= 0xffff_ffff_ffff_ffff,
        ;
    }
    let wide_i: u128 = i as u128;
    let wide_j: u128 = j as u128;
    let place: u128 = wide_i * (wide_i - 1) / 2 + wide_j;
    place as usize
}

/// What behaves as a matrix: it has a shape and a value in every cell.
pub trait MatrixLike<T: Scalar> {
    /// What the operations need of the value.
    spec fn valid(&self) -> bool;

    /// The cells: `None` for a cell that holds nothing and reads as zero.
    spec fn cells(&self) -> Matrix<Option<T>>;

    /// The number of rows.
    fn nrows(&self) -> (n: usize)
        ensures
            n == self.cells().rows,
    ;

    /// The number of columns.
    fn ncols(&self) -> (n: usize)
        ensures
            n == self.cells().cols,
    ;

    /// The cell in row `i` and column `j`; zero where the cell holds nothing.
    fn get(&self, i: usize, j: usize) -> (value: T)
        requires
            self.valid(),
            i < self.cells().rows,
            j < self.cells().cols,
        ensures
            reads(self.cells().at(i as int, j as int), value),
    ;

    /// The cells of row `i`, copied.
    fn row(&self, i: usize) -> (row: Vec<T>)
        requires
            self.valid(),
            i < self.cells().rows,
        ensures
            row@.len() == self.cells().cols,
            forall|j: int|
                0 <= j < self.cells().cols ==> reads(
                    self.cells().at(i as int, j),
                    #[trigger] row@[j],
                ),
            functional::<T>() ==> row@ == Seq::new(
                self.cells().cols,
                |j: int| filled(self.cells()).at(i as int, j),
            ),
    {
        let ncols = self.ncols();
        let mut row: Vec<T> = Vec::new();
        let mut j: usize = 0;
        while j < ncols
            invariant
                self.valid(),
                i < self.cells().rows,
                ncols == self.cells().cols,
                j <= ncols,
                row@.len() == j,
                forall|k: int|
                    0 <= k < j ==> reads(self.cells().at(i as int, k), #[trigger] row@[k]),
            decreases ncols - j,
        {
            row.push(self.get(i, j));
            j += 1;
        }
        proof {
            if functional::<T>() {
                let want = Seq::new(
                    self.cells().cols,
                    |j: int| filled(self.cells()).at(i as int, j),
                );
                assert forall|k: int| 0 <= k < ncols implies row@[k] == want[k] by {
                    lemma_reads_shown(self.cells().at(i as int, k), row@[k]);
                }
                assert(row@ =~= want);
            }
        }
        row
    }

    /// The cells of column `j`, copied.
    fn col(&self, j: usize) -> (col: Vec<T>)
        requires
            self.valid(),
            j < self.cells().cols,
        ensures
            col@.len() == self.cells().rows,
            forall|i: int|
                0 <= i < self.cells().rows ==> reads(
                    self.cells().at(i, j as int),
                    #[trigger] col@[i],
                ),
            functional::<T>() ==> col@ == Seq::new(
                self.cells().rows,
                |i: int| filled(self.cells()).at(i, j as int),
            ),
    {
        let nrows = self.nrows();
        let mut col: Vec<T> = Vec::new();
        let mut i: usize = 0;
        while i < nrows
            invariant
                self.valid(),
                j < self.cells().cols,
                nrows == self.cells().rows,
                i <= nrows,
                col@.len() == i,
                forall|k: int|
                    0 <= k < i ==> reads(self.cells().at(k, j as int), #[trigger] col@[k]),
            decreases nrows - i,
        {
            col.push(self.get(i, j));
            i += 1;
        }
        proof {
            if functional::<T>() {
                let want = Seq::new(
                    self.cells().rows,
                    |i: int| filled(self.cells()).at(i, j as int),
                );
                assert forall|k: int| 0 <= k < nrows implies col@[k] == want[k] by {
                    lemma_reads_shown(self.cells().at(k, j as int), col@[k]);
                }
                assert(col@ =~= want);
            }
        }
        col
    }
}

impl<'a, T: Scalar> MatrixLike<T> for MatrixView<'a, T> {
    open spec fn valid(&self) -> bool {
        self.wf()
    }

    open spec fn cells(&self) -> Matrix<Option<T>> {
        self.cells()
    }

    fn nrows(&self) -> (n: usize) {
        self.nrows
    }

    fn ncols(&self) -> (n: usize) {
        self.ncols
    }

    fn get(&self, i: usize, j: usize) -> (value: T) {
        self.get(i, j)
    }
}

} // verus!
