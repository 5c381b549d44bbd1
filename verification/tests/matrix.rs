use crust::error::ClusterError;
use crust::scalar::Scalar;
use crust::utils::{MatrixLike, MatrixView};

/// A double as the element type of a matrix.
#[derive(Clone, Copy, Debug, PartialEq)]
struct Real(f64);

impl Scalar for Real {
    fn zero() -> Self {
        Real(0.0)
    }
    fn from_count(n: usize) -> Self {
        Real(n as f64)
    }
    fn plus(self, rhs: Self) -> Self {
        Real(self.0 + rhs.0)
    }
    fn minus(self, rhs: Self) -> Self {
        Real(self.0 - rhs.0)
    }
    fn times(self, rhs: Self) -> Self {
        Real(self.0 * rhs.0)
    }
    fn over(self, rhs: Self) -> Self {
        Real(self.0 / rhs.0)
    }
    fn squared(self) -> Self {
        Real(self.0.powi(2))
    }
    fn abs(self) -> Self {
        Real(self.0.abs())
    }
    fn max(self, rhs: Self) -> Self {
        Real(self.0.max(rhs.0))
    }
    fn sqrt(self) -> Self {
        Real(self.0.sqrt())
    }
    fn less_than(self, rhs: Self) -> bool {
        self.0 < rhs.0
    }
}

fn reals(values: &[f64]) -> Vec<Real> {
    values.iter().map(|&x| Real(x)).collect()
}

#[test]
fn matrix_view_test() {
    let data: Vec<Real> = reals(&[
        1.0, 2.0, 3.0, // row 0
        2.0, 3.0, 4.0, // row 1
        3.0, 4.0, 5.0, // row 2
        8.0, 8.0, 8.0, // row 3
    ]);

    let matrix_view = MatrixView::new(&data, 4, 3).unwrap();

    println!("{:#?}", matrix_view);

    for (index, value) in data.iter().enumerate() {
        let matrix_value = matrix_view.get(index / 3, index % 3);
        println!("{:?} {:?}", matrix_value, *value);
        assert_eq!(matrix_value, *value);
    }
}

#[test]
fn matrix_view_transpose_test() {
    let data: Vec<Real> = reals(&[
        1.0, 0.0, 0.0, 0.0, // row 0
        2.0, 1.0, 0.0, 0.0, // row 1
        3.0, 4.0, 1.0, 0.0, // row 2
        5.0, 6.0, 7.0, 1.0, // row 3
    ]);

    let matrix_view = MatrixView::new(&data, 4, 4).unwrap();
    let transposed_view = matrix_view.transposed();

    assert_eq!(transposed_view.nrows(), 4);
    assert_eq!(transposed_view.ncols(), 4);

    for (index, value) in data.iter().enumerate() {
        let matrix_value = matrix_view.get(index % 4, index / 4);
        let transposed_matrix_value = transposed_view.get(index / 4, index % 4);
        println!(
            "{index} {} {} {:?} {:?} {:?}",
            index / 4,
            index % 4,
            matrix_value,
            transposed_matrix_value,
            *value
        );
        assert_eq!(matrix_value, transposed_matrix_value);
    }
}

#[test]
fn matrix_view_upper_triangular_test() {
    let full_data: Vec<Real> = reals(&[
        0.0, 1.0, 2.0, 3.0, // row 0
        0.0, 0.0, 4.0, 5.0, // row 1
        0.0, 0.0, 0.0, 6.0, // row 2
        0.0, 0.0, 0.0, 0.0, // row 3
    ]);

    let trig_data: Vec<Real> = reals(&[1.0, 2.0, 3.0, 4.0, 5.0, 6.0]);

    let full_view = MatrixView::new(&full_data, 4, 4).unwrap();
    let trig_view = MatrixView::new_upper_triangular(&trig_data, 4, 4).unwrap();

    for (index, value) in full_data.iter().enumerate() {
        let matrix_value = full_view.get(index % 4, index / 4);
        let trig_matrix_value = trig_view.get(index % 4, index / 4);
        println!(
            "{index} {} {} {:?} {:?} {:?}",
            index / 4,
            index % 4,
            trig_matrix_value,
            matrix_value,
            *value
        );
        assert_eq!(matrix_value, trig_matrix_value);
    }
}

#[test]
fn matrix_view_lower_triangular_test() {
    let full_data: Vec<Real> = reals(&[
        0.0, 1.0, 2.0, 3.0, // row 0
        0.0, 0.0, 4.0, 5.0, // row 1
        0.0, 0.0, 0.0, 6.0, // row 2
        0.0, 0.0, 0.0, 0.0, // row 3
    ]);

    let trig_data: Vec<Real> = reals(&[1.0, 2.0, 3.0, 4.0, 5.0, 6.0]);

    let full_view = MatrixView::new(&full_data, 4, 4).unwrap();
    let transposed_full_view = full_view.transposed();
    let trig_view = MatrixView::new_upper_triangular(&trig_data, 4, 4).unwrap();

    for (index, value) in full_data.iter().enumerate() {
        let transposed_matrix_value = transposed_full_view.get(index / 4, index % 4);
        let trig_matrix_value = trig_view.get(index % 4, index / 4);
        println!(
            "{index} {} {} {:?} {:?} {:?}",
            index / 4,
            index % 4,
            trig_matrix_value,
            transposed_matrix_value,
            *value
        );
        assert_eq!(transposed_matrix_value, trig_matrix_value);
    }
}

#[test]
fn full_view_reads_row_major() {
    let data = reals(&[1.0, 2.0, 3.0, 4.0, 5.0, 6.0]);
    let view = MatrixView::new(&data, 2, 3).unwrap();
    assert_eq!(view.nrows(), 2);
    assert_eq!(view.ncols(), 3);
    assert_eq!(view.get(0, 0), Real(1.0));
    assert_eq!(view.get(0, 2), Real(3.0));
    assert_eq!(view.get(1, 0), Real(4.0));
    assert_eq!(view.get(1, 2), Real(6.0));
    assert_eq!(view.row(1), reals(&[4.0, 5.0, 6.0]));
    assert_eq!(view.col(1), reals(&[2.0, 5.0]));
}

#[test]
fn upper_triangular_uses_the_packed_index() {
    // n = 5: cell (i, j), i < j, sits at i * n - i * (i + 1) / 2 + (j - i - 1)
    let packed = reals(&[0.0, 1.0, 2.0, 3.0, 4.0, 5.0, 6.0, 7.0, 8.0, 9.0]);
    let view = MatrixView::new_upper_triangular(&packed, 5, 5).unwrap();
    assert_eq!(view.get(0, 1), Real(0.0));
    assert_eq!(view.get(0, 4), Real(3.0));
    assert_eq!(view.get(1, 2), Real(4.0));
    assert_eq!(view.get(2, 3), Real(7.0));
    assert_eq!(view.get(2, 4), Real(8.0));
    assert_eq!(view.get(3, 4), Real(9.0));
    for i in 0..5 {
        for j in 0..=i {
            assert_eq!(view.get(i, j), Real(0.0));
        }
    }
}

#[test]
fn lower_triangular_is_masked_on_and_above_the_diagonal() {
    let packed = reals(&[1.0, 2.0, 3.0, 4.0, 5.0, 6.0]);
    let view = MatrixView::new_lower_triangular(&packed, 4, 4).unwrap();
    assert_eq!(view.get(1, 0), Real(1.0));
    assert_eq!(view.get(2, 0), Real(2.0));
    assert_eq!(view.get(2, 1), Real(3.0));
    assert_eq!(view.get(3, 0), Real(4.0));
    assert_eq!(view.get(3, 1), Real(5.0));
    assert_eq!(view.get(3, 2), Real(6.0));
    for i in 0..4 {
        for j in i..4 {
            assert_eq!(view.get(i, j), Real(0.0));
        }
    }
}

#[test]
fn transpose_of_a_lower_triangle_is_the_upper_triangle() {
    let packed = reals(&[1.0, 2.0, 3.0]);
    let lower = MatrixView::new_lower_triangular(&packed, 3, 3).unwrap();
    let upper = lower.transposed();
    assert_eq!(upper.get(0, 1), Real(1.0));
    assert_eq!(upper.get(0, 2), Real(2.0));
    assert_eq!(upper.get(1, 2), Real(3.0));
    assert_eq!(upper.get(1, 0), Real(0.0));
}

#[test]
fn transpose_swaps_the_shape() {
    let data = reals(&[1.0, 2.0, 3.0, 4.0, 5.0, 6.0]);
    let view = MatrixView::new(&data, 2, 3).unwrap();
    let transposed = view.transposed();
    assert_eq!(transposed.nrows(), 3);
    assert_eq!(transposed.ncols(), 2);
    for i in 0..3 {
        for j in 0..2 {
            assert_eq!(transposed.get(i, j), view.get(j, i));
        }
    }
}

#[test]
fn transpose_twice_gives_the_view_back() {
    let data = reals(&[1.0, 2.0, 3.0, 4.0, 5.0, 6.0]);
    let view = MatrixView::new(&data, 2, 3).unwrap();
    let once = view.transposed();
    let twice = once.transposed();
    assert_eq!(twice.nrows(), 2);
    assert_eq!(twice.ncols(), 3);
    for i in 0..2 {
        for j in 0..3 {
            assert_eq!(twice.get(i, j).0.to_bits(), view.get(i, j).0.to_bits());
        }
    }
}

#[test]
fn permutations_remap_rows_and_columns() {
    let data = reals(&[
        0.0, 1.0, 2.0, //
        10.0, 11.0, 12.0, //
        20.0, 21.0, 22.0,
    ]);
    let view = MatrixView::new(&data, 3, 3).unwrap();
    let rows = [2usize, 0, 1];
    let cols = [1usize, 2, 0];

    let by_rows = view.row_permutation(&rows).unwrap();
    assert_eq!(by_rows.row(0), reals(&[20.0, 21.0, 22.0]));
    assert_eq!(by_rows.row(1), reals(&[0.0, 1.0, 2.0]));
    assert_eq!(by_rows.row(2), reals(&[10.0, 11.0, 12.0]));

    let by_cols = view.col_permutation(&cols).unwrap();
    assert_eq!(by_cols.row(0), reals(&[1.0, 2.0, 0.0]));
    assert_eq!(by_cols.row(2), reals(&[21.0, 22.0, 20.0]));

    let both = view.permutation(&rows, &cols).unwrap();
    for i in 0..3 {
        for j in 0..3 {
            assert_eq!(both.get(i, j), view.get(rows[i], cols[j]));
        }
    }
    assert_eq!(both.get(0, 0), Real(21.0));
}

#[test]
fn permutation_composes_with_transpose() {
    let data = reals(&[1.0, 2.0, 3.0, 4.0, 5.0, 6.0]);
    let view = MatrixView::new(&data, 2, 3).unwrap();
    let transposed = view.transposed();
    let rows = [2usize, 1, 0];
    let permuted = transposed.row_permutation(&rows).unwrap();
    // row i of the result is column rows[i] of the first view
    assert_eq!(permuted.row(0), reals(&[3.0, 6.0]));
    assert_eq!(permuted.row(1), reals(&[2.0, 5.0]));
    assert_eq!(permuted.row(2), reals(&[1.0, 4.0]));
    let back = permuted.transposed();
    assert_eq!(back.row(0), reals(&[3.0, 2.0, 1.0]));
    assert_eq!(back.row(1), reals(&[6.0, 5.0, 4.0]));
}

#[test]
fn permutation_of_a_permutation() {
    let data = reals(&[0.0, 1.0, 2.0, 3.0]);
    let view = MatrixView::new(&data, 4, 1).unwrap();
    let first = [1usize, 2, 3, 0];
    let second = [3usize, 0, 1, 2];
    let once = view.row_permutation(&first).unwrap();
    let twice = once.row_permutation(&second).unwrap();
    // row i of `twice` is row second[i] of `once`, which is row first[second[i]] of `view`
    assert_eq!(twice.col(0), reals(&[0.0, 1.0, 2.0, 3.0]));
}

#[test]
fn wrong_buffer_length_is_an_invalid_shape() {
    let data = reals(&[1.0, 2.0, 3.0, 4.0, 5.0]);
    assert_eq!(
        MatrixView::new(&data, 2, 3).err(),
        Some(ClusterError::InvalidShape)
    );
    assert_eq!(
        MatrixView::new_upper_triangular(&data, 4, 4).err(),
        Some(ClusterError::InvalidShape)
    );
    assert_eq!(
        MatrixView::new_lower_triangular(&data, 4, 4).err(),
        Some(ClusterError::InvalidShape)
    );
    let six = reals(&[1.0, 2.0, 3.0, 4.0, 5.0, 6.0]);
    assert_eq!(
        MatrixView::new_upper_triangular(&six, 4, 3).err(),
        Some(ClusterError::InvalidShape)
    );
}

#[test]
fn empty_views_are_accepted() {
    let nothing: Vec<Real> = Vec::new();
    let full = MatrixView::new(&nothing, 0, 3).unwrap();
    assert_eq!(full.nrows(), 0);
    assert_eq!(full.ncols(), 3);
    let single = MatrixView::new_upper_triangular(&nothing, 1, 1).unwrap();
    assert_eq!(single.get(0, 0), Real(0.0));
    let none = MatrixView::new_upper_triangular(&nothing, 0, 0).unwrap();
    assert_eq!(none.nrows(), 0);
}

#[test]
fn wrong_order_length_is_an_invalid_shape() {
    let data = reals(&[1.0, 2.0, 3.0, 4.0, 5.0, 6.0]);
    let view = MatrixView::new(&data, 2, 3).unwrap();
    let short = [0usize];
    let rows = [1usize, 0];
    let cols = [0usize, 1, 2];
    assert_eq!(
        view.row_permutation(&short).err(),
        Some(ClusterError::InvalidShape)
    );
    assert_eq!(
        view.col_permutation(&short).err(),
        Some(ClusterError::InvalidShape)
    );
    assert_eq!(
        view.permutation(&rows, &short).err(),
        Some(ClusterError::InvalidShape)
    );
    assert_eq!(
        view.permutation(&short, &cols).err(),
        Some(ClusterError::InvalidShape)
    );
    assert!(view.permutation(&rows, &cols).is_ok());
}

#[test]
fn indexing_refers_to_the_buffer() {
    let data = reals(&[1.0, 2.0, 3.0, 4.0, 5.0, 6.0]);
    let view = MatrixView::new(&data, 2, 3).unwrap();
    assert_eq!(view[(0, 1)], Real(2.0));
    assert_eq!(view[(1, 2)], Real(6.0));
    let transposed = view.transposed();
    assert_eq!(transposed[(2, 0)], Real(3.0));
    assert!(std::ptr::eq(&transposed[(2, 1)], &data[5]));
    let packed = reals(&[1.0, 2.0, 3.0]);
    let upper = MatrixView::new_upper_triangular(&packed, 3, 3).unwrap();
    assert_eq!(upper[(0, 2)], Real(2.0));
    assert_eq!(upper[(1, 2)], Real(3.0));
}

#[test]
fn order_entry_out_of_range_is_an_invalid_shape() {
    let data = reals(&[1.0, 2.0, 3.0, 4.0, 5.0, 6.0]);
    let view = MatrixView::new(&data, 2, 3).unwrap();
    let rows = [1usize, 0];
    let cols = [0usize, 1, 2];
    let bad_rows = [0usize, 2];
    let bad_cols = [0usize, 3, 1];
    assert_eq!(
        view.row_permutation(&bad_rows).err(),
        Some(ClusterError::InvalidShape)
    );
    assert_eq!(
        view.col_permutation(&bad_cols).err(),
        Some(ClusterError::InvalidShape)
    );
    assert_eq!(
        view.permutation(&bad_rows, &cols).err(),
        Some(ClusterError::InvalidShape)
    );
    assert_eq!(
        view.permutation(&rows, &bad_cols).err(),
        Some(ClusterError::InvalidShape)
    );
    // an order may name a row twice
    let twice = [1usize, 1];
    let doubled = view.row_permutation(&twice).unwrap();
    assert_eq!(doubled.row(0), reals(&[4.0, 5.0, 6.0]));
    assert_eq!(doubled.row(1), reals(&[4.0, 5.0, 6.0]));
}
