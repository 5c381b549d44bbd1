use crust::{
    cluster_tree_with_views, cluster_with_views, compute_distance_matrix_from_view,
    find_nodes_to_merge_with_view, hierarchical_clustering, ClusteringAxis,
    HierarchicalClusteringResult,
};
use crust::distance::{Chebyshev, Distance, DistanceMetric, Euclidean};
use crust::error::ClusterError;
use crust::linkage::{AverageLinkage, Linkage, LinkageFunction, WardLinkage};
use crust::scalar::Scalar;
use crust::tree::HcTree;
use crust::utils::MatrixView;

/// A double as the element type of a matrix.
#[derive(Clone, Copy, Debug, PartialEq)]
struct Real(f64);

impl Scalar for Real {
    fn zero() -> Self {
        Real(0.0)
    }
    fn from_count(n: usize) -> Self {
        Real(n as f64)
    }
    fn plus(self, rhs: Self) -> Self {
        Real(self.0 + rhs.0)
    }
    fn minus(self, rhs: Self) -> Self {
        Real(self.0 - rhs.0)
    }
    fn times(self, rhs: Self) -> Self {
        Real(self.0 * rhs.0)
    }
    fn over(self, rhs: Self) -> Self {
        Real(self.0 / rhs.0)
    }
    fn squared(self) -> Self {
        Real(self.0.powi(2))
    }
    fn abs(self) -> Self {
        Real(self.0.abs())
    }
    fn max(self, rhs: Self) -> Self {
        Real(self.0.max(rhs.0))
    }
    fn sqrt(self) -> Self {
        Real(self.0.sqrt())
    }
    fn less_than(self, rhs: Self) -> bool {
        self.0 < rhs.0
    }
}

fn reals(values: &[f64]) -> Vec<Real> {
    values.iter().map(|&x| Real(x)).collect()
}

fn unwrapped(values: &[Real]) -> Vec<f64> {
    values.iter().map(|x| x.0).collect()
}

fn is_permutation(order: &[usize], n: usize) -> bool {
    let mut seen = vec![false; n];
    for &x in order {
        if x >= n || seen[x] {
            return false;
        }
        seen[x] = true;
    }
    order.len() == n
}

fn ten_rows() -> Vec<Real> {
    reals(&[
        1.0, 2.0, 3.0, // row 0
        2.0, 3.0, 4.0, // row 1
        3.0, 4.0, 5.0, // row 2
        8.0, 8.0, 8.0, // row 3
        1.0, 0.0, 1.0, // row 4
        0.0, 1.0, 0.0, // row 5
        6.0, 5.0, 4.0, // row 6
        9.0, 9.0, 9.0, // row 7
        2.0, 2.0, 2.0, // row 8
        5.0, 5.0, 5.0, // row 9
    ])
}

#[test]
fn cluster_with_views_test() {
    let data: Vec<Real> = ten_rows();

    let result = hierarchical_clustering(
        10,
        3,
        data,
        ClusteringAxis::Row,
        LinkageFunction::Average,
        DistanceMetric::Chebyshev,
    )
    .unwrap();

    result
        .row_order
        .iter()
        .enumerate()
        .for_each(|(x, y)| println!("{x}, {y}"));
}

#[test]
fn ten_rows_by_average_chebyshev() {
    let data = ten_rows();
    let result = hierarchical_clustering(
        10,
        3,
        data.clone(),
        ClusteringAxis::Row,
        LinkageFunction::Average,
        DistanceMetric::Chebyshev,
    )
    .unwrap();
    assert!(is_permutation(&result.row_order, 10));
    assert_eq!(result.col_order, vec![0, 1, 2]);
    assert_eq!(result.row_order, vec![0, 1, 2, 4, 5, 8, 3, 7, 6, 9]);
    for i in 0..10 {
        for j in 0..3 {
            assert_eq!(result.values[i * 3 + j], data[result.row_order[i] * 3 + j]);
        }
    }
}

#[test]
fn euclidean_is_the_sum_of_squares() {
    let a = reals(&[1.0, 2.0, 3.0]);
    let b = reals(&[4.0, 6.0, 8.0]);
    assert_eq!(DistanceMetric::Euclidean.compute(&a, &b), Ok(Real(50.0)));
    assert_eq!(Euclidean.distance(&a, &b), Ok(Real(50.0)));
    assert_eq!(Euclidean.compute(&a, &b), Real(50.0));
}

#[test]
fn chebyshev_is_the_largest_difference() {
    let a = reals(&[1.0, 2.0, 3.0]);
    let b = reals(&[4.0, -6.0, 8.0]);
    assert_eq!(DistanceMetric::Chebyshev.compute(&a, &b), Ok(Real(8.0)));
    assert_eq!(Chebyshev.distance(&a, &b), Ok(Real(8.0)));
    assert_eq!(Chebyshev.compute(&a, &b), Real(8.0));
}

#[test]
fn distance_to_itself_is_zero() {
    let a = reals(&[1.5, -2.25, 3.0, 1e10]);
    assert_eq!(DistanceMetric::Euclidean.compute(&a, &a), Ok(Real(0.0)));
    assert_eq!(DistanceMetric::Chebyshev.compute(&a, &a), Ok(Real(0.0)));
}

#[test]
fn distance_is_symmetric() {
    let a = reals(&[1.5, -2.25, 3.0, 0.1]);
    let b = reals(&[0.3, 7.0, -1.0, 0.7]);
    for metric in [DistanceMetric::Euclidean, DistanceMetric::Chebyshev] {
        assert_eq!(metric.compute(&a, &b), metric.compute(&b, &a));
    }
}

#[test]
fn distance_of_empty_vectors_is_zero() {
    let nothing: Vec<Real> = Vec::new();
    assert_eq!(
        DistanceMetric::Euclidean.compute(&nothing, &nothing),
        Ok(Real(0.0))
    );
    assert_eq!(
        DistanceMetric::Chebyshev.compute(&nothing, &nothing),
        Ok(Real(0.0))
    );
}

#[test]
fn length_mismatch_reports_both_lengths() {
    let a = reals(&[1.0, 2.0, 3.0]);
    let b = reals(&[1.0, 2.0]);
    let nothing: Vec<Real> = Vec::new();
    for metric in [DistanceMetric::Euclidean, DistanceMetric::Chebyshev] {
        assert_eq!(
            metric.compute(&a, &b),
            Err(ClusterError::LengthMismatch { left: 3, right: 2 })
        );
        assert_eq!(
            metric.compute(&b, &a),
            Err(ClusterError::LengthMismatch { left: 2, right: 3 })
        );
        assert_eq!(
            metric.compute(&nothing, &a),
            Err(ClusterError::LengthMismatch { left: 0, right: 3 })
        );
    }
    assert_eq!(
        Euclidean.distance(&a, &b),
        Err(ClusterError::LengthMismatch { left: 3, right: 2 })
    );
}

#[test]
fn distance_matrix_is_packed_row_by_row() {
    let data = reals(&[
        0.0, 0.0, //
        3.0, 4.0, //
        6.0, 8.0, //
        0.0, 1.0,
    ]);
    let view = MatrixView::new(&data, 4, 2).unwrap();
    let euclidean = compute_distance_matrix_from_view(&view, DistanceMetric::Euclidean);
    // pairs (0,1) (0,2) (0,3) (1,2) (1,3) (2,3)
    assert_eq!(
        unwrapped(&euclidean),
        vec![25.0, 100.0, 1.0, 25.0, 18.0, 85.0]
    );
    let chebyshev = compute_distance_matrix_from_view(&view, DistanceMetric::Chebyshev);
    assert_eq!(unwrapped(&chebyshev), vec![4.0, 8.0, 1.0, 4.0, 3.0, 7.0]);

    let columns = view.transposed();
    let between_columns = compute_distance_matrix_from_view(&columns, DistanceMetric::Euclidean);
    assert_eq!(unwrapped(&between_columns), vec![0.0 + 1.0 + 4.0 + 1.0]);
}

#[test]
fn distance_matrix_of_one_row_is_empty() {
    let data = reals(&[1.0, 2.0, 3.0]);
    let view = MatrixView::new(&data, 1, 3).unwrap();
    assert!(compute_distance_matrix_from_view(&view, DistanceMetric::Euclidean).is_empty());
    let nothing: Vec<Real> = Vec::new();
    let empty = MatrixView::new(&nothing, 0, 3).unwrap();
    assert!(compute_distance_matrix_from_view(&empty, DistanceMetric::Euclidean).is_empty());
}

/// Leaves 0..4 with node 4 = {0, 1} merged.
fn small_forest() -> HcTree {
    let mut tree = HcTree::initialize_new_tree(4);
    tree.merge(0, 1);
    tree
}

#[test]
fn average_linkage_is_the_mean_of_the_pairwise_distances() {
    // distances: d(0,1)=1 d(0,2)=2 d(0,3)=3 d(1,2)=4 d(1,3)=5 d(2,3)=6
    let packed = reals(&[1.0, 2.0, 3.0, 4.0, 5.0, 6.0]);
    let distances = MatrixView::new_upper_triangular(&packed, 4, 4).unwrap();
    let data = reals(&[0.0, 0.0, 0.0, 0.0]);
    let data_matrix = MatrixView::new(&data, 4, 1).unwrap();
    let tree = small_forest();

    // {0, 1} against {2}: (2 + 4) / 2 / 1
    let value = LinkageFunction::Average.compute_from_views(
        &tree.nodes[4],
        &tree.nodes[2],
        &distances,
        &data_matrix,
    );
    assert_eq!(value, Real(3.0));
    // the order of the clusters does not matter to where a distance is read
    let swapped = LinkageFunction::Average.compute_from_views(
        &tree.nodes[2],
        &tree.nodes[4],
        &distances,
        &data_matrix,
    );
    assert_eq!(swapped, Real(3.0));
    // {2} against {3}
    let leaves = AverageLinkage::compute_from_views(
        &tree.nodes[2],
        &tree.nodes[3],
        &distances,
        &data_matrix,
    );
    assert_eq!(leaves, Real(6.0));
}

#[test]
fn average_linkage_divides_by_both_sizes() {
    let packed = reals(&[1.0, 2.0, 3.0, 4.0, 5.0, 6.0]);
    let distances = MatrixView::new_upper_triangular(&packed, 4, 4).unwrap();
    let data = reals(&[0.0, 0.0, 0.0, 0.0]);
    let data_matrix = MatrixView::new(&data, 4, 1).unwrap();
    let mut tree = small_forest();
    tree.merge(2, 3);
    // {0, 1} against {2, 3}: (2 + 3 + 4 + 5) / 2 / 2
    let value = LinkageFunction::Average.compute_from_views(
        &tree.nodes[4],
        &tree.nodes[5],
        &distances,
        &data_matrix,
    );
    assert_eq!(value, Real(3.5));
}

#[test]
fn ward_linkage_of_two_leaves() {
    let data = reals(&[
        0.0, 0.0, //
        3.0, 4.0, //
        6.0, 8.0, //
        0.0, 1.0,
    ]);
    let data_matrix = MatrixView::new(&data, 4, 2).unwrap();
    let packed = reals(&[0.0, 0.0, 0.0, 0.0, 0.0, 0.0]);
    let distances = MatrixView::new_upper_triangular(&packed, 4, 4).unwrap();
    let tree = small_forest();
    // centroids (0, 0) and (3, 4): d = 25, sizes 1 and 1: sqrt((2 / 1) * 25)
    let value = LinkageFunction::Ward.compute_from_views(
        &tree.nodes[0],
        &tree.nodes[1],
        &distances,
        &data_matrix,
    );
    assert_eq!(value, Real(50.0f64.sqrt()));
    let direct = WardLinkage::compute_from_views(
        &tree.nodes[0],
        &tree.nodes[1],
        &distances,
        &data_matrix,
    );
    assert_eq!(direct, Real(50.0f64.sqrt()));
}

#[test]
fn ward_linkage_uses_the_centroids() {
    let data = reals(&[
        0.0, 0.0, //
        3.0, 4.0, //
        6.0, 8.0, //
        0.0, 1.0,
    ]);
    let data_matrix = MatrixView::new(&data, 4, 2).unwrap();
    let packed = reals(&[0.0, 0.0, 0.0, 0.0, 0.0, 0.0]);
    let distances = MatrixView::new_upper_triangular(&packed, 4, 4).unwrap();
    let tree = small_forest();
    // {0, 1} has centroid (1.5, 2); {2} is (6, 8): d = 20.25 + 36 = 56.25
    // sizes 2 and 1: sqrt((3 / 2) * 56.25)
    let value = LinkageFunction::Ward.compute_from_views(
        &tree.nodes[4],
        &tree.nodes[2],
        &distances,
        &data_matrix,
    );
    assert_eq!(value, Real((1.5f64 * 56.25).sqrt()));
}

#[test]
fn merge_step_takes_the_closest_pair() {
    let data = reals(&[0.0, 10.0, 11.0, 30.0]);
    let data_matrix = MatrixView::new(&data, 4, 1).unwrap();
    let packed = compute_distance_matrix_from_view(&data_matrix, DistanceMetric::Chebyshev);
    let distances = MatrixView::new_upper_triangular(&packed, 4, 4).unwrap();
    let mut tree = HcTree::initialize_new_tree(4);

    find_nodes_to_merge_with_view(
        &mut tree.nodes,
        &distances,
        &data_matrix,
        LinkageFunction::Average,
    );
    assert_eq!(tree.nodes.len(), 5);
    assert_eq!(tree.nodes[4].id, 4);
    assert_eq!(tree.nodes[4].children, vec![1, 2]);
    assert_eq!(tree.nodes[4].indices, vec![1, 2]);
    assert_eq!(tree.nodes[4].parent, None);
    assert_eq!(tree.nodes[1].parent, Some(4));
    assert_eq!(tree.nodes[2].parent, Some(4));
    assert_eq!(tree.nodes[0].parent, None);
    assert_eq!(tree.nodes[3].parent, None);
    assert_eq!(tree.parentless_count(), 3);

    // {0} to {1, 2} is 10.5, {1, 2} to {3} is 19.5, {0} to {3} is 30
    find_nodes_to_merge_with_view(
        &mut tree.nodes,
        &distances,
        &data_matrix,
        LinkageFunction::Average,
    );
    assert_eq!(tree.nodes[5].children, vec![0, 4]);
    assert_eq!(tree.nodes[5].indices, vec![0, 1, 2]);
    assert_eq!(tree.parentless_count(), 2);
}

#[test]
fn merge_step_breaks_ties_by_the_first_pair() {
    // all distances are equal: the first pair in enumeration order is (0, 1)
    let data = reals(&[0.0, 0.0, 0.0]);
    let data_matrix = MatrixView::new(&data, 3, 1).unwrap();
    let packed = reals(&[1.0, 1.0, 1.0]);
    let distances = MatrixView::new_upper_triangular(&packed, 3, 3).unwrap();
    let mut tree = HcTree::initialize_new_tree(3);
    find_nodes_to_merge_with_view(
        &mut tree.nodes,
        &distances,
        &data_matrix,
        LinkageFunction::Average,
    );
    assert_eq!(tree.nodes[3].children, vec![0, 1]);
    // the candidates are now (2, 3) only
    find_nodes_to_merge_with_view(
        &mut tree.nodes,
        &distances,
        &data_matrix,
        LinkageFunction::Average,
    );
    assert_eq!(tree.nodes[4].children, vec![2, 3]);
    assert_eq!(tree.nodes[4].indices, vec![2, 0, 1]);
}

#[test]
fn two_tight_pairs_merge_before_they_meet() {
    let data = reals(&[
        0.0, 0.0, 0.0, //
        1.0, 1.0, 1.0, //
        5.0, 5.0, 5.0, //
        6.0, 6.0, 6.0,
    ]);
    let data_matrix = MatrixView::new(&data, 4, 3).unwrap();
    let tree = cluster_tree_with_views(
        &data_matrix,
        DistanceMetric::Euclidean,
        LinkageFunction::Average,
    );
    assert_eq!(tree.nodes.len(), 7);
    assert_eq!(tree.nodes[4].children, vec![0, 1]);
    assert_eq!(tree.nodes[5].children, vec![2, 3]);
    let root = tree.root().unwrap();
    assert_eq!(root.id, 6);
    assert_eq!(root.parent, None);
    assert_eq!(root.children, vec![4, 5]);
    for &child in &root.children {
        assert_eq!(tree.nodes[child].indices.len(), 2);
        assert_eq!(tree.nodes[child].get_subtree_size(&tree), 2);
    }
    let mut covered = root.indices.clone();
    covered.sort();
    assert_eq!(covered, vec![0, 1, 2, 3]);
    assert_eq!(tree.parentless_count(), 1);
}

#[test]
fn clustering_makes_one_merge_less_than_leaves() {
    for n in 1..=9usize {
        let values: Vec<Real> = (0..n * 2).map(|k| Real(((k * 7919) % 31) as f64)).collect();
        let data_matrix = MatrixView::new(&values, n, 2).unwrap();
        for linkage in [LinkageFunction::Average, LinkageFunction::Ward] {
            for metric in [DistanceMetric::Euclidean, DistanceMetric::Chebyshev] {
                let tree = cluster_tree_with_views(&data_matrix, metric, linkage);
                assert_eq!(tree.nodes.len(), 2 * n - 1);
                assert_eq!(tree.parentless_count(), 1);
                let internal = tree.nodes.iter().filter(|x| !x.children.is_empty()).count();
                assert_eq!(internal, n - 1);
                let root = tree.root().unwrap();
                assert!(is_permutation(&root.indices, n));
                for node in &tree.nodes {
                    if node.children.len() == 2 {
                        let left = &tree.nodes[node.children[0]].indices;
                        let right = &tree.nodes[node.children[1]].indices;
                        assert!(left.iter().all(|x| !right.contains(x)));
                        assert_eq!(node.indices.len(), left.len() + right.len());
                    } else {
                        assert!(node.children.is_empty());
                    }
                }
                let order = cluster_with_views(&data_matrix, metric, linkage);
                assert!(is_permutation(&order, n));
            }
        }
    }
}

#[test]
fn cluster_order_puts_the_larger_subtree_first() {
    // 0 and 1 are close, 2 is far: the pair comes first in display order
    let data = reals(&[10.0, 0.0, 1.0]);
    let data_matrix = MatrixView::new(&data, 3, 1).unwrap();
    let order = cluster_with_views(
        &data_matrix,
        DistanceMetric::Chebyshev,
        LinkageFunction::Average,
    );
    // node 3 = {1, 2}, node 4 = [0, 3]; ladderized: [3, 0]
    assert_eq!(order, vec![1, 2, 0]);
}

#[test]
fn ward_clustering_of_a_line() {
    let data = reals(&[0.0, 1.0, 10.0, 11.0, 30.0]);
    let data_matrix = MatrixView::new(&data, 5, 1).unwrap();
    let tree = cluster_tree_with_views(
        &data_matrix,
        DistanceMetric::Euclidean,
        LinkageFunction::Ward,
    );
    assert_eq!(tree.nodes[5].children, vec![0, 1]);
    assert_eq!(tree.nodes[6].children, vec![2, 3]);
    let order = cluster_with_views(&data_matrix, DistanceMetric::Euclidean, LinkageFunction::Ward);
    assert!(is_permutation(&order, 5));
}

#[test]
fn single_row_is_its_own_order() {
    let data = reals(&[1.0, 2.0, 3.0]);
    for axis in [ClusteringAxis::Row, ClusteringAxis::Column, ClusteringAxis::Both] {
        let result = hierarchical_clustering(
            1,
            3,
            data.clone(),
            axis,
            LinkageFunction::Average,
            DistanceMetric::Euclidean,
        )
        .unwrap();
        assert_eq!(result.row_order, vec![0]);
        assert!(is_permutation(&result.col_order, 3));
        for j in 0..3 {
            assert_eq!(result.values[j], data[result.col_order[j]]);
        }
    }
    let data_matrix = MatrixView::new(&data, 1, 3).unwrap();
    let tree = cluster_tree_with_views(
        &data_matrix,
        DistanceMetric::Euclidean,
        LinkageFunction::Average,
    );
    assert_eq!(tree.nodes.len(), 1);
    assert!(tree.nodes[0].children.is_empty());
}

#[test]
fn single_column_is_its_own_order() {
    let data = reals(&[3.0, 1.0, 2.0]);
    let result = hierarchical_clustering(
        3,
        1,
        data,
        ClusteringAxis::Column,
        LinkageFunction::Ward,
        DistanceMetric::Euclidean,
    )
    .unwrap();
    assert_eq!(result.col_order, vec![0]);
    assert_eq!(result.row_order, vec![0, 1, 2]);
    assert_eq!(unwrapped(&result.values), vec![3.0, 1.0, 2.0]);
}

#[test]
fn empty_matrix_has_empty_orders() {
    let result = hierarchical_clustering(
        0,
        0,
        Vec::<Real>::new(),
        ClusteringAxis::Both,
        LinkageFunction::Average,
        DistanceMetric::Euclidean,
    )
    .unwrap();
    assert!(result.row_order.is_empty());
    assert!(result.col_order.is_empty());
    assert!(result.values.is_empty());
}

#[test]
fn both_axes_reorder_the_values_together() {
    let input = reals(&[
        1.0, 9.0, 2.0, 8.0, //
        7.0, 3.0, 6.5, 3.5, //
        1.5, 9.5, 2.5, 8.5, //
        7.5, 2.0, 6.0, 4.0,
    ]);
    for linkage in [LinkageFunction::Average, LinkageFunction::Ward] {
        for metric in [DistanceMetric::Euclidean, DistanceMetric::Chebyshev] {
            let result = hierarchical_clustering(
                4,
                4,
                input.clone(),
                ClusteringAxis::Both,
                linkage,
                metric,
            )
            .unwrap();
            assert!(is_permutation(&result.row_order, 4));
            assert!(is_permutation(&result.col_order, 4));
            assert_eq!(result.values.len(), 16);
            for i in 0..4 {
                for j in 0..4 {
                    assert_eq!(
                        result.values[i * 4 + j],
                        input[result.row_order[i] * 4 + result.col_order[j]]
                    );
                }
            }
        }
    }
}

#[test]
fn both_axes_with_average_euclidean() {
    let input = reals(&[
        1.0, 9.0, 2.0, 8.0, //
        7.0, 3.0, 6.5, 3.5, //
        1.5, 9.5, 2.5, 8.5, //
        7.5, 2.0, 6.0, 4.0,
    ]);
    let result = hierarchical_clustering(
        4,
        4,
        input,
        ClusteringAxis::Both,
        LinkageFunction::Average,
        DistanceMetric::Euclidean,
    )
    .unwrap();
    // rows 0 and 2 are close, rows 1 and 3 are close; columns 1 and 3, columns 0 and 2
    assert_eq!(result.row_order, vec![0, 2, 1, 3]);
    assert_eq!(result.col_order, vec![0, 2, 1, 3]);
    assert_eq!(
        unwrapped(&result.values),
        vec![
            1.0, 2.0, 9.0, 8.0, //
            1.5, 2.5, 9.5, 8.5, //
            7.0, 6.5, 3.0, 3.5, //
            7.5, 6.0, 2.0, 4.0,
        ]
    );
}

#[test]
fn unclustered_axis_keeps_its_order() {
    let input = reals(&[
        5.0, 0.0, 9.0, //
        0.0, 1.0, 0.5, //
        5.5, 0.5, 9.5,
    ]);
    let by_rows = hierarchical_clustering(
        3,
        3,
        input.clone(),
        ClusteringAxis::Row,
        LinkageFunction::Average,
        DistanceMetric::Chebyshev,
    )
    .unwrap();
    assert_eq!(by_rows.col_order, vec![0, 1, 2]);
    assert_eq!(by_rows.row_order, vec![0, 2, 1]);
    let by_cols = hierarchical_clustering(
        3,
        3,
        input,
        ClusteringAxis::Column,
        LinkageFunction::Average,
        DistanceMetric::Chebyshev,
    )
    .unwrap();
    assert_eq!(by_cols.row_order, vec![0, 1, 2]);
    assert!(is_permutation(&by_cols.col_order, 3));
}

#[test]
fn wrong_value_count_is_an_invalid_shape() {
    let values = reals(&[1.0, 2.0, 3.0, 4.0, 5.0]);
    for axis in [ClusteringAxis::Row, ClusteringAxis::Column, ClusteringAxis::Both] {
        let result = hierarchical_clustering(
            2,
            3,
            values.clone(),
            axis,
            LinkageFunction::Average,
            DistanceMetric::Euclidean,
        );
        assert_eq!(result.err(), Some(ClusterError::InvalidShape));
    }
}

#[test]
fn result_getters_hand_out_the_fields() {
    let result = HierarchicalClusteringResult::new(
        vec![1, 0, 4294967296 + 7],
        vec![0, 1],
        reals(&[1.0, 2.0, 3.0, 4.0, 5.0, 6.0]),
    );
    let expected_rows: Vec<u32> = if usize::BITS > 32 {
        vec![1, 0, 7]
    } else {
        vec![1, 0, (4294967296u64 + 7) as usize as u32]
    };
    assert_eq!(result.row_order(), expected_rows);
    assert_eq!(result.col_order(), vec![0u32, 1]);
    assert_eq!(result.values(), &reals(&[1.0, 2.0, 3.0, 4.0, 5.0, 6.0])[..]);
}
