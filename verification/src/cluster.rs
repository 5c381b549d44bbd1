//! The merge loop and the orchestration of a clustering call.
use crate::distance::DistanceMetric;
use crate::error::ClusterError;
use crate::forest::{
    forest_over, forest_wf, is_parentless, is_permutation, leaf_forest, lemma_display_order,
    lemma_last_parentless, lemma_leaf_forest_over, lemma_merged_count, lemma_merged_over,
    lemma_root_covers, merged, node_wf, parentless_count, NodeView,
};
use crate::linkage::LinkageFunction;
use crate::matrix::{
    all_below, full_matrix, lemma_matrix_ext, lemma_packed_upper, lemma_triangle,
    lemma_triangle_monotonic, packed_len, packed_upper, reads, triangle, upper_matrix, Matrix,
};
use crate::merging::{
    after_merges, candidate_pairs, cluster_order, clustered, distance_grid, first_least,
    identity_order, is_candidate, lemma_candidates_exist, lemma_linkage_applies,
    lemma_pairs_upto, lemma_short_order, linkage_applies, merge_closest, merges_a_candidate,
    pair_keys, pairs_upto, row_pairs,
};
use crate::scalar::{functional, Scalar};
use crate::tree::{forest_of, merge_nodes, HcTree, Node};
use crate::utils::{MatrixLike, MatrixView};
use vstd::prelude::*;

verus! {

/// The axis, or axes, to cluster.
#[derive(Debug, Clone, Copy)]
pub enum ClusteringAxis {
    /// Order the rows; the columns stay as they are.
    Row,
    /// Order the columns; the rows stay as they are.
    Column,
    /// Order the rows and, independently, the columns.
    Both,
}

/// What a clustering call returns: the display order of the rows, that of
/// the columns, and the matrix with rows and columns in those orders, row
/// after row.
pub struct HierarchicalClusteringResult<T> {
    /// Row `i` of the result is row `row_order[i]` of the input.
    pub row_order: Vec<usize>,
    /// Column `j` of the result is column `col_order[j]` of the input.
    pub col_order: Vec<usize>,
    /// The reordered matrix, row after row.
    pub values: Vec<T>,
}

impl<T> HierarchicalClusteringResult<T> {
    /// A result made of its three parts.
    pub fn new(row_order: Vec<usize>, col_order: Vec<usize>, values: Vec<T>) -> (result: Self)
        ensures
            result.row_order == row_order,
            result.col_order == col_order,
            result.values == values,
    {
        HierarchicalClusteringResult { row_order, col_order, values }
    }

    /// The order of the rows as 32-bit numbers; a larger entry keeps its low
    /// 32 bits.
    pub fn row_order(&self) -> (order: Vec<u32>)
        ensures
            order@ == low_bits(self.row_order@),
    {
        narrowed(&self.row_order)
    }

    /// The order of the columns as 32-bit numbers; a larger entry keeps its
    /// low 32 bits.
    pub fn col_order(&self) -> (order: Vec<u32>)
        ensures
            order@ == low_bits(self.col_order@),
    {
        narrowed(&self.col_order)
    }

    /// The reordered matrix, row after row.
    pub fn values(&self) -> (values: &[T])
        ensures
            values@ == self.values@,
    {
        self.values.as_slice()
    }
}

/// Every entry cut down to its low 32 bits.
pub open spec fn low_bits(order: Seq<usize>) -> Seq<u32> {
    Seq::new(order.len(), |i: int| order[i] as u32)
}

fn narrowed(order: &Vec<usize>) -> (narrow: Vec<u32>)
    ensures
        narrow@ == low_bits(order@),
{
    let mut narrow: Vec<u32> = Vec::new();
    let mut i: usize = 0;
    while i < order.len()
        invariant
            i <= order@.len(),
            narrow@.len() == i,
            forall|k: int| 0 <= k < i ==> narrow@[k] == order@[k] as u32,
        decreases order@.len() - i,
    {
        narrow.push(#[verifier::truncate] (order[i] as u32));
        i += 1;
    }
    assert(narrow@ =~= low_bits(order@));
    narrow
}

/// A candidate for the next merge and the distance between its two nodes.
struct LinkageResult<T> {
    first_index: usize,
    second_index: usize,
    distance: T,
}

/// One merge step: evaluates the linkage for every pair of parentless
/// nodes, in the order of [`candidate_pairs`], and merges the first pair of
/// least distance.
pub fn find_nodes_to_merge_with_view<T: Scalar>(
    nodes: &mut Vec<Node>,
    distance_matrix: &MatrixView<T>,
    data_matrix: &MatrixView<T>,
    linkage: LinkageFunction,
)
    requires
        forest_wf(forest_of(old(nodes)@)),
        parentless_count(forest_of(old(nodes)@)) >= 2,
        distance_matrix.wf(),
        data_matrix.wf(),
        linkage_applies(forest_of(old(nodes)@), linkage, distance_matrix@, data_matrix@),
    ensures
        forest_wf(forest_of(final(nodes)@)),
        merges_a_candidate(forest_of(old(nodes)@), forest_of(final(nodes)@)),
        functional::<T>() ==> forest_of(final(nodes)@) == merge_closest(
            forest_of(old(nodes)@),
            linkage,
            distance_matrix@,
            data_matrix@,
        ),
{
    let ghost f = forest_of(nodes@);
    let ghost dist = distance_matrix@;
    let ghost data = data_matrix@;
    let mut pairs: Vec<LinkageResult<T>> = Vec::new();
    let mut i: usize = 0;
    while i < nodes.len()
        invariant
            f == forest_of(nodes@),
            forest_wf(f),
            distance_matrix.wf(),
            data_matrix.wf(),
            dist == distance_matrix@,
            data == data_matrix@,
            linkage_applies(f, linkage, dist, data),
            i <= nodes.len(),
            pairs@.len() == pairs_upto(f, i as int).len(),
            forall|k: int|
                0 <= k < pairs@.len() ==> {
                    &&& (#[trigger] pairs@[k]).first_index == pairs_upto(f, i as int)[k].0
                    &&& pairs@[k].second_index == pairs_upto(f, i as int)[k].1
                },
            functional::<T>() ==> forall|k: int|
                0 <= k < pairs@.len() ==> (#[trigger] pairs@[k]).distance == key_of(
                    f,
                    pairs@[k],
                    linkage,
                    dist,
                    data,
                ),
        decreases nodes.len() - i,
    {
        if nodes[i].parent.is_none() {
            let ghost before = pairs_upto(f, i as int);
            let mut j: usize = i + 1;
            while j < nodes.len()
                invariant
                    f == forest_of(nodes@),
                    forest_wf(f),
                    distance_matrix.wf(),
                    data_matrix.wf(),
                    dist == distance_matrix@,
                    data == data_matrix@,
                    linkage_applies(f, linkage, dist, data),
                    i < j <= nodes.len(),
                    is_parentless(f, i as int),
                    before == pairs_upto(f, i as int),
                    pairs@.len() == (before + row_pairs(f, i as int, j as int)).len(),
                    forall|k: int|
                        0 <= k < pairs@.len() ==> {
                            &&& (#[trigger] pairs@[k]).first_index == (before + row_pairs(
                                f,
                                i as int,
                                j as int,
                            ))[k].0
                            &&& pairs@[k].second_index == (before + row_pairs(
                                f,
                                i as int,
                                j as int,
                            ))[k].1
                        },
                    functional::<T>() ==> forall|k: int|
                        0 <= k < pairs@.len() ==> (#[trigger] pairs@[k]).distance == key_of(
                            f,
                            pairs@[k],
                            linkage,
                            dist,
                            data,
                        ),
                decreases nodes.len() - j,
            {
                if nodes[j].parent.is_none() {
                    proof {
                        assert(is_parentless(f, j as int));
                        assert(node_wf(f, i as int));
                        assert(node_wf(f, j as int));
                    }
                    let distance = linkage.compute_from_views(
                        &nodes[i],
                        &nodes[j],
                        distance_matrix,
                        data_matrix,
                    );
                    pairs.push(
                        LinkageResult {
                            first_index: nodes[i].id,
                            second_index: nodes[j].id,
                            distance,
                        },
                    );
                }
                j += 1;
            }
        }
        i += 1;
    }
    proof {
        lemma_candidates_exist(f);
        lemma_pairs_upto(f, f.len() as int);
    }
    let ghost candidates = candidate_pairs(f);
    let ghost keys = pair_keys(f, candidates, linkage, dist, data);
    let mut best: usize = 0;
    let mut k: usize = 1;
    while k < pairs.len()
        invariant
            1 <= k <= pairs@.len(),
            best < k,
            pairs@.len() == keys.len(),
            functional::<T>() ==> forall|m: int|
                0 <= m < pairs@.len() ==> (#[trigger] pairs@[m]).distance == keys[m],
            functional::<T>() ==> best == first_least(keys, k as int),
        decreases pairs@.len() - k,
    {
        if pairs[k].distance.less_than(pairs[best].distance) {
            best = k;
        }
        k += 1;
    }
    let first = pairs[best].first_index;
    let second = pairs[best].second_index;
    proof {
        assert(is_candidate(f, candidates[best as int]));
        assert(candidates[best as int] == (first, second));
    }
    merge_nodes(nodes, first, second);
}

/// The linkage distance of the two nodes of a candidate.
spec fn key_of<T: Scalar>(
    f: Seq<NodeView>,
    pair: LinkageResult<T>,
    linkage: LinkageFunction,
    distance_matrix: Matrix<T>,
    data_matrix: Matrix<T>,
) -> T {
    linkage.value(
        f[pair.first_index as int].indices,
        f[pair.second_index as int].indices,
        distance_matrix,
        data_matrix,
    )
}

/// The distances between the rows of a matrix, as the packed upper
/// triangle of the matrix of distances.
pub fn compute_distance_matrix_from_view<T: Scalar>(
    data_matrix: &MatrixView<T>,
    distance: DistanceMetric,
) -> (packed: Vec<T>)
    requires
        data_matrix.wf(),
    ensures
        packed@.len() == packed_len(data_matrix@.rows as int),
        functional::<T>() ==> forall|i: int, j: int|
            0 <= i < j < data_matrix@.rows ==> packed@[#[trigger] packed_upper(
                data_matrix@.rows as int,
                i,
                j,
            )] == distance.value(data_matrix@.row(i), data_matrix@.row(j)),
        functional::<T>() ==> upper_matrix(packed@, data_matrix@.rows) == distance_grid(
            data_matrix@,
            distance,
        ),
{
    let n = data_matrix.nrows();
    let ghost data = data_matrix@;
    let ghost total = triangle(n - 1);
    let mut distance_matrix: Vec<T> = Vec::new();
    proof {
        data_matrix.lemma_shape();
        if n > 0 {
            lemma_triangle(n - 1);
            assert((n - 1) * n == n * (n - 1)) by (nonlinear_arith);
        }
    }
    let mut i: usize = 0;
    while i < n
        invariant
            data_matrix.wf(),
            data == data_matrix@,
            data.wf(),
            n == data.rows,
            total == triangle(n - 1),
            i <= n,
            distance_matrix@.len() == total - triangle(n - 1 - i),
            functional::<T>() ==> forall|a: int, b: int|
                0 <= a < b < n && a < i ==> distance_matrix@[#[trigger] packed_upper(
                    n as int,
                    a,
                    b,
                )] == distance.value(data.row(a), data.row(b)),
        decreases n - i,
    {
        let row_i_vect: Vec<T> = data_matrix.row(i);
        proof {
            if functional::<T>() {
                assert(row_i_vect@ =~= data.row(i as int));
            }
        }
        let mut j: usize = i + 1;
        while j < n
            invariant
                data_matrix.wf(),
                data == data_matrix@,
                data.wf(),
                n == data.rows,
                total == triangle(n - 1),
                i < j <= n,
                row_i_vect@.len() == data.cols,
                functional::<T>() ==> row_i_vect@ == data.row(i as int),
                distance_matrix@.len() == total - triangle(n - 1 - i) + (j - i - 1),
                functional::<T>() ==> forall|a: int, b: int|
                    0 <= a < b < n && (a < i || (a == i && b < j))
                        ==> distance_matrix@[#[trigger] packed_upper(n as int, a, b)]
                        == distance.value(data.row(a), data.row(b)),
            decreases n - j,
        {
            let row_j_vect: Vec<T> = data_matrix.row(j);
            proof {
                if functional::<T>() {
                    assert(row_j_vect@ =~= data.row(j as int));
                }
                lemma_packed_upper(n as int, i as int, j as int);
            }
            let ghost before = distance_matrix@;
            distance_matrix.push(
                distance.compute(row_i_vect.as_slice(), row_j_vect.as_slice()).unwrap(),
            );
            proof {
                if functional::<T>() {
                    assert forall|a: int, b: int|
                        0 <= a < b < n && (a < i || (a == i && b < j + 1))
                        implies distance_matrix@[#[trigger] packed_upper(n as int, a, b)]
                        == distance.value(data.row(a), data.row(b)) by {
                        lemma_packed_upper(n as int, a, b);
                        if a == i && b == j {
                        } else {
                            if a < i {
                                lemma_triangle_monotonic(n - 1 - i, n - 2 - a);
                            }
                            assert(packed_upper(n as int, a, b) < before.len());
                            assert(distance_matrix@[packed_upper(n as int, a, b)]
                                == before[packed_upper(n as int, a, b)]);
                        }
                    }
                }
            }
            j += 1;
        }
        i += 1;
    }
    proof {
        assert(triangle(-1) == 0);
        assert(total == packed_len(n as int)) by {
            if n == 0 {
                assert(packed_len(0) == 0);
            }
        }
        if functional::<T>() {
            let got = upper_matrix(distance_matrix@, data.rows);
            let want = distance_grid(data, distance);
            lemma_matrix_ext(got, want);
        }
    }
    distance_matrix
}

/// Builds the merge tree of the rows of a matrix: starting from one leaf
/// per row, the two closest parentless nodes are merged until a single node
/// is left.
pub fn cluster_tree_with_views<T: Scalar>(
    data_matrix: &MatrixView<T>,
    distance: DistanceMetric,
    linkage: LinkageFunction,
) -> (tree: HcTree)
    requires
        data_matrix.wf(),
    ensures
        tree.wf(),
        forest_over(tree@, data_matrix@.rows),
        data_matrix@.rows >= 1 ==> {
            &&& tree.nodes.len() == 2 * data_matrix@.rows - 1
            &&& parentless_count(tree@) == 1
            &&& is_parentless(tree@, tree.nodes.len() - 1)
            &&& is_permutation(tree.nodes[tree.nodes.len() - 1].indices@, data_matrix@.rows)
        },
        data_matrix@.rows < 2 ==> tree@ == leaf_forest(data_matrix@.rows),
        functional::<T>() ==> tree@ == clustered(data_matrix@, distance, linkage),
{
    let n = data_matrix.nrows();
    let mut tree = HcTree::initialize_new_tree(n);
    let distance_matrix_flat = compute_distance_matrix_from_view(data_matrix, distance);
    let distance_matrix = MatrixView::new_upper_triangular(
        distance_matrix_flat.as_slice(),
        n,
        n,
    ).unwrap();
    let ghost data = data_matrix@;
    let ghost dist = distance_matrix@;
    let ghost merges: nat = 0;
    proof {
        lemma_leaf_forest_over(n as nat);
    }
    while tree.parentless_count() >= 2
        invariant
            data_matrix.wf(),
            distance_matrix.wf(),
            data == data_matrix@,
            dist == distance_matrix@,
            dist.rows == n,
            dist.cols == n,
            functional::<T>() ==> dist == distance_grid(data, distance),
            n == data.rows,
            forest_over(tree@, n as nat),
            tree.nodes.len() == n + merges,
            merges == 0 ==> tree@ == leaf_forest(n as nat),
            functional::<T>() ==> tree@ == after_merges(n as nat, merges, linkage, dist, data),
        decreases parentless_count(tree@),
    {
        let ghost before = tree@;
        proof {
            lemma_linkage_applies(before, n as nat, linkage, dist, data);
        }
        find_nodes_to_merge_with_view(&mut tree.nodes, &distance_matrix, data_matrix, linkage);
        proof {
            let pair = choose|pair: (usize, usize)| #[trigger]
                is_candidate(before, pair) && tree@ == merged(
                    before,
                    pair.0 as int,
                    pair.1 as int,
                );
            assert(before.len() + 1 == tree@.len() == tree.nodes.len());
            lemma_merged_over(before, n as nat, pair.0 as int, pair.1 as int);
            lemma_merged_count(before, pair.0 as int, pair.1 as int);
            merges = merges + 1;
        }
    }
    proof {
        if n >= 1 {
            lemma_last_parentless(tree@);
            lemma_root_covers(tree@, n as nat);
        }
    }
    tree
}

/// The rows of a matrix in display order: the leaves of the ladderized
/// merge tree, as a traversal meets them.
pub fn cluster_with_views<T: Scalar>(
    data_matrix: &MatrixView<T>,
    distance: DistanceMetric,
    linkage: LinkageFunction,
) -> (row_order: Vec<usize>)
    requires
        data_matrix.wf(),
    ensures
        is_permutation(row_order@, data_matrix@.rows),
        data_matrix@.rows < 2 ==> row_order@ == identity_order(data_matrix@.rows),
        functional::<T>() ==> row_order@ == cluster_order(data_matrix@, distance, linkage),
{
    let mut tree = cluster_tree_with_views(data_matrix, distance, linkage);
    proof {
        lemma_display_order(tree@, data_matrix@.rows);
    }
    tree.ladderize();
    let row_order = tree.leaf_order();
    proof {
        if data_matrix@.rows < 2 {
            lemma_short_order(row_order@, data_matrix@.rows);
        }
    }
    row_order
}

/// The order `0, 1, ..., n - 1`.
fn identity(n: usize) -> (order: Vec<usize>)
    ensures
        order@ == identity_order(n as nat),
        is_permutation(order@, n as nat),
{
    let mut order: Vec<usize> = Vec::new();
    let mut i: usize = 0;
    while i < n
        invariant
            i <= n,
            order@.len() == i,
            forall|k: int| 0 <= k < i ==> order@[k] == k,
        decreases n - i,
    {
        order.push(i);
        i += 1;
    }
    proof {
        assert(order@ =~= identity_order(n as nat));
        assert forall|x: usize| #[trigger] order@.contains(x) <==> x < n by {
            if x < n {
                assert(order@[x as int] == x);
            }
        }
    }
    order
}

/// The cells of a view copied into a buffer, row after row.
fn materialize<T: Scalar>(view: &MatrixView<T>) -> (values: Vec<T>)
    requires
        view.wf(),
        view.cells().rows * view.cells().cols <= usize::MAX,
    ensures
        values@.len() == view.cells().rows * view.cells().cols,
        forall|i: int, j: int|
            0 <= i < view.cells().rows && 0 <= j < view.cells().cols ==> reads(
                #[trigger] view.cells().at(i, j),
                values@[i * view.cells().cols + j],
            ),
{
    let nrows = view.nrows();
    let ncols = view.ncols();
    let mut values: Vec<T> = Vec::new();
    let mut i: usize = 0;
    while i < nrows
        invariant
            view.wf(),
            nrows == view.cells().rows,
            ncols == view.cells().cols,
            i <= nrows,
            values@.len() == i * ncols,
            forall|a: int, b: int|
                0 <= a < i && 0 <= b < ncols ==> reads(
                    #[trigger] view.cells().at(a, b),
                    values@[a * ncols + b],
                ),
        decreases nrows - i,
    {
        let mut row = view.row(i);
        let ghost before = values@;
        let ghost added = row@;
        values.append(&mut row);
        proof {
            assert((i + 1) * ncols == i * ncols + ncols) by (nonlinear_arith);
            assert forall|a: int, b: int| 0 <= a < i + 1 && 0 <= b < ncols implies reads(
                #[trigger] view.cells().at(a, b),
                values@[a * ncols + b],
            ) by {
                if a < i {
                    assert(a * ncols + b < i * ncols) by (nonlinear_arith)
                        requires
                            0 <= a < i,
                            0 <= b < ncols,
                    ;
                    assert(values@[a * ncols + b] == before[a * ncols + b]);
                } else {
                    assert(values@[i * ncols + b] == added[b]);
                }
            }
        }
        i += 1;
    }
    values
}

/// `out` holds the cells of the reordered matrix, row after row: cell
/// `(i, j)` is cell `(row_order[i], col_order[j])` of the matrix that
/// `values` holds.
pub open spec fn reordered<T>(
    values: Seq<T>,
    ncols: nat,
    row_order: Seq<usize>,
    col_order: Seq<usize>,
    out: Seq<T>,
) -> bool {
    &&& out.len() == row_order.len() * col_order.len()
    &&& forall|i: int, j: int|
        0 <= i < row_order.len() && 0 <= j < col_order.len() ==> out[i * ncols + j]
            == values[row_order[i] * ncols + col_order[j]]
}

/// Clusters the rows, the columns or both of the `nrows` by `ncols` matrix
/// that `values` holds row after row, and returns the display orders with
/// the matrix reordered by them. An axis that is not clustered keeps its
/// order. The call fails with `InvalidShape` when `values` does not hold
/// `nrows * ncols` cells.
pub fn hierarchical_clustering<T: Scalar>(
    nrows: usize,
    ncols: usize,
    values: Vec<T>,
    axis: ClusteringAxis,
    linkage: LinkageFunction,
    distance: DistanceMetric,
) -> (result: Result<HierarchicalClusteringResult<T>, ClusterError>)
    ensures
        match result {
            Ok(r) => {
                let data = full_matrix(values@, nrows as nat, ncols as nat);
                &&& values@.len() == nrows * ncols
                &&& is_permutation(r.row_order@, nrows as nat)
                &&& is_permutation(r.col_order@, ncols as nat)
                &&& axis is Column || nrows < 2 ==> r.row_order@ == identity_order(nrows as nat)
                &&& axis is Row || ncols < 2 ==> r.col_order@ == identity_order(ncols as nat)
                &&& !(axis is Column) && functional::<T>() ==> r.row_order@ == cluster_order(
                    data,
                    distance,
                    linkage,
                )
                &&& !(axis is Row) && functional::<T>() ==> r.col_order@ == cluster_order(
                    data.transposed(),
                    distance,
                    linkage,
                )
                &&& reordered(values@, ncols as nat, r.row_order@, r.col_order@, r.values@)
            },
            Err(e) => values@.len() != nrows * ncols && e == ClusterError::InvalidShape,
        },
{
    let data_matrix = match MatrixView::new(values.as_slice(), nrows, ncols) {
        Ok(view) => view,
        Err(error) => {
            return Err(error);
        },
    };
    let (row_order, col_order) = match axis {
        ClusteringAxis::Both => {
            let transposed = data_matrix.transposed();
            (
                cluster_with_views(&data_matrix, distance, linkage),
                cluster_with_views(&transposed, distance, linkage),
            )
        },
        ClusteringAxis::Row => {
            (cluster_with_views(&data_matrix, distance, linkage), identity(ncols))
        },
        ClusteringAxis::Column => {
            let transposed = data_matrix.transposed();
            (identity(nrows), cluster_with_views(&transposed, distance, linkage))
        },
    };
    proof {
        assert(all_below(row_order@, nrows as nat)) by {
            assert forall|i: int| 0 <= i < row_order@.len() implies (#[trigger] row_order@[i])
                < nrows by {
                assert(row_order@.contains(row_order@[i]));
            }
        }
        assert(all_below(col_order@, ncols as nat)) by {
            assert forall|i: int| 0 <= i < col_order@.len() implies (#[trigger] col_order@[i])
                < ncols by {
                assert(col_order@.contains(col_order@[i]));
            }
        }
    }
    let reordered_values = {
        let permutation_view = data_matrix.permutation(
            row_order.as_slice(),
            col_order.as_slice(),
        ).unwrap();
        proof {
            assert(values@.len() == values.len());
        }
        let copied = materialize(&permutation_view);
        proof {
            assert forall|i: int, j: int|
                0 <= i < row_order@.len() && 0 <= j < col_order@.len() implies copied@[i * ncols
                + j] == values@[row_order@[i] * ncols + col_order@[j]] by {
                assert(reads(permutation_view.cells().at(i, j), copied@[i * ncols + j]));
                assert(row_order@[i] < nrows);
                assert(col_order@[j] < ncols);
            }
        }
        copied
    };
    Ok(HierarchicalClusteringResult { values: reordered_values, row_order, col_order })
}

} // verus!
