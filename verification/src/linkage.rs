//! Distances between two clusters.
use crate::distance::{euclidean, Distance, Euclidean};
use crate::scalar::{count, functional, product, quotient, root, sum, zero, Scalar};
use crate::tree::Node;
use crate::matrix::{all_below, Matrix};
use crate::utils::{MatrixLike, MatrixView};
use vstd::prelude::*;

verus! {

/// The linkage to cluster by.
#[derive(Debug, Clone, Copy)]
pub enum LinkageFunction {
    /// The mean of the pairwise distances, see [`average_linkage`].
    Average,
    /// The distance of the centroids, weighted by the sizes, see
    /// [`ward_linkage`].
    Ward,
}

/// `acc` plus the distances from item `i` to the first `n` items of
/// `second`, in their order; an item equal to `i` adds nothing. The distance
/// of two items is read above the diagonal of `dist`.
pub open spec fn row_sum<T: Scalar>(
    acc: T,
    i: usize,
    second: Seq<usize>,
    n: int,
    dist: Matrix<T>,
) -> T
    decreases n,
{
    if n <= 0 {
        acc
    } else {
        let before = row_sum(acc, i, second, n - 1, dist);
        let j = second[n - 1];
        if i == j {
            before
        } else if i < j {
            sum(before, dist.at(i as int, j as int))
        } else {
            sum(before, dist.at(j as int, i as int))
        }
    }
}

/// Sum of the distances from each of the first `m` items of `first` to each
/// item of `second`, added up pair by pair from zero.
pub open spec fn pair_sum<T: Scalar>(
    first: Seq<usize>,
    second: Seq<usize>,
    m: int,
    dist: Matrix<T>,
) -> T
    decreases m,
{
    if m <= 0 {
        zero::<T>()
    } else {
        row_sum(
            pair_sum(first, second, m - 1, dist),
            first[m - 1],
            second,
            second.len() as int,
            dist,
        )
    }
}

/// Average linkage: the sum of the pairwise distances, divided by the size
/// of the first cluster and then by the size of the second.
pub open spec fn average_linkage<T: Scalar>(
    first: Seq<usize>,
    second: Seq<usize>,
    dist: Matrix<T>,
) -> T {
    quotient(
        quotient(pair_sum(first, second, first.len() as int, dist), count(first.len() as usize)),
        count(second.len() as usize),
    )
}

/// Sum of column `col` of `data` over the first `n` rows named by
/// `indices`, added up from zero.
pub open spec fn column_sum<T: Scalar>(indices: Seq<usize>, n: int, data: Matrix<T>, col: int) -> T
    decreases n,
{
    if n <= 0 {
        zero::<T>()
    } else {
        sum(column_sum(indices, n - 1, data, col), data.at(indices[n - 1] as int, col))
    }
}

/// The mean of the rows of `data` named by `indices`, column by column.
pub open spec fn centroid<T: Scalar>(indices: Seq<usize>, data: Matrix<T>) -> Seq<T> {
    Seq::new(
        data.cols,
        |col: int|
            quotient(
                column_sum(indices, indices.len() as int, data, col),
                count(indices.len() as usize),
            ),
    )
}

/// Ward linkage: with `a` and `b` the sizes of the clusters and `d` the
/// squared Euclidean distance of their centroids, the root of
/// `(a + b) / (a * b) * d`.
pub open spec fn ward_linkage<T: Scalar>(
    first: Seq<usize>,
    second: Seq<usize>,
    data: Matrix<T>,
) -> T {
    let a = count::<T>(first.len() as usize);
    let b = count::<T>(second.len() as usize);
    let d = euclidean(centroid(first, data), centroid(second, data));
    root(product(quotient(sum(a, b), product(a, b)), d))
}

/// A distance between two clusters, each given by the items it covers.
pub trait Linkage<T: Scalar> {
    /// Whether the linkage can be evaluated: the matrix that it reads has a
    /// place for every item.
    spec fn applies(
        first: Seq<usize>,
        second: Seq<usize>,
        distance_matrix: Matrix<T>,
        data_matrix: Matrix<T>,
    ) -> bool;

    /// The distance between the two clusters.
    spec fn value(
        first: Seq<usize>,
        second: Seq<usize>,
        distance_matrix: Matrix<T>,
        data_matrix: Matrix<T>,
    ) -> T;

    /// The distance between the clusters of two nodes.
    fn compute_from_views(
        first_node: &Node,
        second_node: &Node,
        distance_matrix: &MatrixView<T>,
        data_matrix: &MatrixView<T>,
    ) -> (value: T)
        requires
            distance_matrix.wf(),
            data_matrix.wf(),
            Self::applies(
                first_node.indices@,
                second_node.indices@,
                distance_matrix@,
                data_matrix@,
            ),
        ensures
            functional::<T>() ==> value == Self::value(
                first_node.indices@,
                second_node.indices@,
                distance_matrix@,
                data_matrix@,
            ),
    ;
}

/// Average linkage, see [`average_linkage`]. It reads the distance matrix.
pub struct AverageLinkage;

impl<T: Scalar> Linkage<T> for AverageLinkage {
    open spec fn applies(
        first: Seq<usize>,
        second: Seq<usize>,
        distance_matrix: Matrix<T>,
        data_matrix: Matrix<T>,
    ) -> bool {
        &&& all_below(first, distance_matrix.rows)
        &&& all_below(first, distance_matrix.cols)
        &&& all_below(second, distance_matrix.rows)
        &&& all_below(second, distance_matrix.cols)
    }

    open spec fn value(
        first: Seq<usize>,
        second: Seq<usize>,
        distance_matrix: Matrix<T>,
        data_matrix: Matrix<T>,
    ) -> T {
        average_linkage(first, second, distance_matrix)
    }

    fn compute_from_views(
        first_node: &Node,
        second_node: &Node,
        distance_matrix: &MatrixView<T>,
        _data_matrix: &MatrixView<T>,
    ) -> (value: T) {
        let ghost first = first_node.indices@;
        let ghost second = second_node.indices@;
        let ghost dist = distance_matrix@;
        let mut total = T::zero();
        let mut a: usize = 0;
        while a < first_node.indices.len()
            invariant
                distance_matrix.wf(),
                dist == distance_matrix@,
                first == first_node.indices@,
                second == second_node.indices@,
                all_below(first, dist.rows),
                all_below(first, dist.cols),
                all_below(second, dist.rows),
                all_below(second, dist.cols),
                a <= first.len(),
                functional::<T>() ==> total == pair_sum(first, second, a as int, dist),
            decreases first.len() - a,
        {
            let i = first_node.indices[a];
            let ghost start = total;
            let mut b: usize = 0;
            while b < second_node.indices.len()
                invariant
                    distance_matrix.wf(),
                    dist == distance_matrix@,
                    second == second_node.indices@,
                    all_below(second, dist.rows),
                    all_below(second, dist.cols),
                    i < dist.rows,
                    i < dist.cols,
                    b <= second.len(),
                    functional::<T>() ==> total == row_sum(start, i, second, b as int, dist),
                decreases second.len() - b,
            {
                let j = second_node.indices[b];
                if i != j {
                    // the distance of a pair is stored above the diagonal
                    let (low, high) = if i > j {
                        (j, i)
                    } else {
                        (i, j)
                    };
                    total = total.plus(distance_matrix.get(low, high));
                }
                b += 1;
            }
            a += 1;
        }
        total.over(T::from_count(first_node.indices.len())).over(
            T::from_count(second_node.indices.len()),
        )
    }
}

/// Ward linkage, see [`ward_linkage`]. It reads the data matrix.
pub struct WardLinkage;

/// The mean of the rows of `data_matrix` that `indices` names.
fn centroid_of<T: Scalar>(indices: &Vec<usize>, data_matrix: &MatrixView<T>) -> (mean: Vec<T>)
    requires
        data_matrix.wf(),
        all_below(indices@, data_matrix@.rows),
    ensures
        mean@.len() == data_matrix@.cols,
        functional::<T>() ==> mean@ == centroid(indices@, data_matrix@),
{
    let size = T::from_count(indices.len());
    let ncols = data_matrix.ncols();
    let mut mean: Vec<T> = Vec::new();
    let mut col_idx: usize = 0;
    while col_idx < ncols
        invariant
            data_matrix.wf(),
            all_below(indices@, data_matrix@.rows),
            ncols == data_matrix@.cols,
            functional::<T>() ==> size == count::<T>(indices@.len() as usize),
            col_idx <= ncols,
            mean@.len() == col_idx,
            functional::<T>() ==> forall|c: int|
                0 <= c < col_idx ==> mean@[c] == centroid(indices@, data_matrix@)[c],
        decreases ncols - col_idx,
    {
        let mut total = T::zero();
        let mut k: usize = 0;
        while k < indices.len()
            invariant
                data_matrix.wf(),
                all_below(indices@, data_matrix@.rows),
                col_idx < data_matrix@.cols,
                k <= indices@.len(),
                functional::<T>() ==> total == column_sum(
                    indices@,
                    k as int,
                    data_matrix@,
                    col_idx as int,
                ),
            decreases indices@.len() - k,
        {
            total = total.plus(data_matrix.get(indices[k], col_idx));
            k += 1;
        }
        mean.push(total.over(size));
        col_idx += 1;
    }
    proof {
        if functional::<T>() {
            assert(mean@ =~= centroid(indices@, data_matrix@));
        }
    }
    mean
}

impl<T: Scalar> Linkage<T> for WardLinkage {
    open spec fn applies(
        first: Seq<usize>,
        second: Seq<usize>,
        distance_matrix: Matrix<T>,
        data_matrix: Matrix<T>,
    ) -> bool {
        &&& all_below(first, data_matrix.rows)
        &&& all_below(second, data_matrix.rows)
    }

    open spec fn value(
        first: Seq<usize>,
        second: Seq<usize>,
        distance_matrix: Matrix<T>,
        data_matrix: Matrix<T>,
    ) -> T {
        ward_linkage(first, second, data_matrix)
    }

    fn compute_from_views(
        first_node: &Node,
        second_node: &Node,
        _distance_matrix: &MatrixView<T>,
        data_matrix: &MatrixView<T>,
    ) -> (value: T) {
        let first_centroid_node_count = T::from_count(first_node.indices.len());
        let first_centroid = centroid_of(&first_node.indices, data_matrix);
        let second_centroid_node_count = T::from_count(second_node.indices.len());
        let second_centroid = centroid_of(&second_node.indices, data_matrix);
        let centroid_distance = Euclidean.compute(
            first_centroid.as_slice(),
            second_centroid.as_slice(),
        );
        first_centroid_node_count.plus(second_centroid_node_count).over(
            first_centroid_node_count.times(second_centroid_node_count),
        ).times(centroid_distance).sqrt()
    }
}

impl LinkageFunction {
    /// Whether this linkage can be evaluated for two clusters: the matrix
    /// that it reads has a place for every item of both.
    pub open spec fn applies<T: Scalar>(
        self,
        first: Seq<usize>,
        second: Seq<usize>,
        distance_matrix: Matrix<T>,
        data_matrix: Matrix<T>,
    ) -> bool {
        match self {
            LinkageFunction::Average => {
                &&& all_below(first, distance_matrix.rows)
                &&& all_below(first, distance_matrix.cols)
                &&& all_below(second, distance_matrix.rows)
                &&& all_below(second, distance_matrix.cols)
            },
            LinkageFunction::Ward => {
                &&& all_below(first, data_matrix.rows)
                &&& all_below(second, data_matrix.rows)
            },
        }
    }

    /// The distance that this linkage gives between two clusters.
    pub open spec fn value<T: Scalar>(
        self,
        first: Seq<usize>,
        second: Seq<usize>,
        distance_matrix: Matrix<T>,
        data_matrix: Matrix<T>,
    ) -> T {
        match self {
            LinkageFunction::Average => average_linkage(first, second, distance_matrix),
            LinkageFunction::Ward => ward_linkage(first, second, data_matrix),
        }
    }

    /// The distance between the clusters of two nodes.
    pub fn compute_from_views<T: Scalar>(
        &self,
        first_node: &Node,
        second_node: &Node,
        distance_matrix: &MatrixView<T>,
        data_matrix: &MatrixView<T>,
    ) -> (value: T)
        requires
            distance_matrix.wf(),
            data_matrix.wf(),
            self.applies(
                first_node.indices@,
                second_node.indices@,
                distance_matrix@,
                data_matrix@,
            ),
        ensures
            functional::<T>() ==> value == self.value(
                first_node.indices@,
                second_node.indices@,
                distance_matrix@,
                data_matrix@,
            ),
    {
        match self {
            LinkageFunction::Average => AverageLinkage::compute_from_views(
                first_node,
                second_node,
                distance_matrix,
                data_matrix,
            ),
            LinkageFunction::Ward => WardLinkage::compute_from_views(
                first_node,
                second_node,
                distance_matrix,
                data_matrix,
            ),
        }
    }
}

} // verus!
