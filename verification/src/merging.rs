//! Which nodes the merge loop merges, in which order, and what holds of
//! the tree that it builds.
use crate::distance::DistanceMetric;
use crate::forest::{
    forest_over, is_leaf, is_parentless, is_permutation, ladderized, leaf_forest, leaf_order,
    lemma_display_order, lemma_leaf_forest_over, lemma_merged_over, lemma_root_covers, merged,
    node_wf, parentless_count, parentless_upto, NodeView,
};
use crate::linkage::LinkageFunction;
use crate::matrix::{all_below, Matrix};
use crate::scalar::{below, zero, Scalar};
use vstd::prelude::*;

verus! {

/// The pairs `(i, m)` with `i < m < j` and `m` parentless, by rising `m`.
pub open spec fn row_pairs(f: Seq<NodeView>, i: int, j: int) -> Seq<(usize, usize)>
    decreases j - i,
{
    if j <= i + 1 {
        Seq::empty()
    } else {
        let before = row_pairs(f, i, j - 1);
        if is_parentless(f, j - 1) {
            before.push((i as usize, (j - 1) as usize))
        } else {
            before
        }
    }
}

/// The pairs of parentless nodes whose first node comes before node `i`:
/// by rising first node, then by rising second node.
pub open spec fn pairs_upto(f: Seq<NodeView>, i: int) -> Seq<(usize, usize)>
    decreases i,
{
    if i <= 0 {
        Seq::empty()
    } else {
        let before = pairs_upto(f, i - 1);
        if is_parentless(f, i - 1) {
            before + row_pairs(f, i - 1, f.len() as int)
        } else {
            before
        }
    }
}

/// All unordered pairs of parentless nodes, in the order in which the merge
/// step looks at them.
pub open spec fn candidate_pairs(f: Seq<NodeView>) -> Seq<(usize, usize)> {
    pairs_upto(f, f.len() as int)
}

/// The place of the least among the first `n` keys; among equal keys, and
/// keys of which none is below the other, the earliest stays.
pub open spec fn first_least<T: Scalar>(keys: Seq<T>, n: int) -> int
    decreases n,
{
    if n <= 1 {
        0
    } else {
        let best = first_least(keys, n - 1);
        if below(keys[n - 1], keys[best]) {
            n - 1
        } else {
            best
        }
    }
}

/// The linkage distances of the given pairs of nodes.
pub open spec fn pair_keys<T: Scalar>(
    f: Seq<NodeView>,
    pairs: Seq<(usize, usize)>,
    linkage: LinkageFunction,
    distance_matrix: Matrix<T>,
    data_matrix: Matrix<T>,
) -> Seq<T> {
    Seq::new(
        pairs.len(),
        |k: int|
            linkage.value(
                f[pairs[k].0 as int].indices,
                f[pairs[k].1 as int].indices,
                distance_matrix,
                data_matrix,
            ),
    )
}

/// The pair of parentless nodes that is merged next: the first candidate
/// pair of least linkage distance.
pub open spec fn closest_pair<T: Scalar>(
    f: Seq<NodeView>,
    linkage: LinkageFunction,
    distance_matrix: Matrix<T>,
    data_matrix: Matrix<T>,
) -> (usize, usize) {
    let pairs = candidate_pairs(f);
    let keys = pair_keys(f, pairs, linkage, distance_matrix, data_matrix);
    pairs[first_least(keys, keys.len() as int)]
}

/// The forest after one merge step.
pub open spec fn merge_closest<T: Scalar>(
    f: Seq<NodeView>,
    linkage: LinkageFunction,
    distance_matrix: Matrix<T>,
    data_matrix: Matrix<T>,
) -> Seq<NodeView> {
    let pair = closest_pair(f, linkage, distance_matrix, data_matrix);
    merged(f, pair.0 as int, pair.1 as int)
}

/// The linkage can be evaluated for every two parentless nodes of the
/// forest.
pub open spec fn linkage_applies<T: Scalar>(
    f: Seq<NodeView>,
    linkage: LinkageFunction,
    distance_matrix: Matrix<T>,
    data_matrix: Matrix<T>,
) -> bool {
    forall|a: int, b: int|
        0 <= a < f.len() && 0 <= b < f.len() && #[trigger] is_parentless(f, a)
            && #[trigger] is_parentless(f, b) ==> linkage.applies(
            f[a].indices,
            f[b].indices,
            distance_matrix,
            data_matrix,
        )
}

/// The distances between the rows of `data`: cell `(i, j)` above the
/// diagonal holds the distance between row `i` and row `j`; the diagonal and
/// what lies below it hold zero.
pub open spec fn distance_grid<T: Scalar>(data: Matrix<T>, metric: DistanceMetric) -> Matrix<T> {
    Matrix {
        rows: data.rows,
        cols: data.rows,
        cells: Seq::new(
            data.rows,
            |i: int|
                Seq::new(
                    data.rows,
                    |j: int|
                        if i < j {
                            metric.value(data.row(i), data.row(j))
                        } else {
                            zero::<T>()
                        },
                ),
        ),
    }
}

/// The forest over `n` leaves after `k` merge steps.
pub open spec fn after_merges<T: Scalar>(
    n: nat,
    k: nat,
    linkage: LinkageFunction,
    distance_matrix: Matrix<T>,
    data_matrix: Matrix<T>,
) -> Seq<NodeView>
    decreases k,
{
    if k == 0 {
        leaf_forest(n)
    } else {
        merge_closest(
            after_merges(n, (k - 1) as nat, linkage, distance_matrix, data_matrix),
            linkage,
            distance_matrix,
            data_matrix,
        )
    }
}

/// The merge tree of the rows of `data`: its leaves merged, closest pair
/// first, until one node is left. For `n` rows that takes `n - 1` steps.
pub open spec fn clustered<T: Scalar>(
    data: Matrix<T>,
    metric: DistanceMetric,
    linkage: LinkageFunction,
) -> Seq<NodeView> {
    if data.rows == 0 {
        leaf_forest(0)
    } else {
        after_merges(data.rows, (data.rows - 1) as nat, linkage, distance_grid(data, metric), data)
    }
}

/// The order of the rows of `data` for display: the leaves of the
/// ladderized merge tree as a traversal meets them.
pub open spec fn cluster_order<T: Scalar>(
    data: Matrix<T>,
    metric: DistanceMetric,
    linkage: LinkageFunction,
) -> Seq<usize> {
    leaf_order(ladderized(clustered(data, metric, linkage)))
}

/// The order that leaves every item in its place.
pub open spec fn identity_order(n: nat) -> Seq<usize> {
    Seq::new(n, |i: int| i as usize)
}

/// Fewer than two items have one order only.
pub proof fn lemma_short_order(order: Seq<usize>, n: nat)
    requires
        n < 2,
        is_permutation(order, n),
    ensures
        order == identity_order(n),
{
    if n == 1 {
        assert(order.contains(order[0]));
    }
    assert(order =~= identity_order(n));
}

/// The pair `(a, b)` is a candidate: two parentless nodes, the first before
/// the second.
pub open spec fn is_candidate(f: Seq<NodeView>, pair: (usize, usize)) -> bool {
    &&& pair.0 < pair.1 < f.len()
    &&& is_parentless(f, pair.0 as int)
    &&& is_parentless(f, pair.1 as int)
}

/// `g` is `f` after the merge of one of its candidate pairs.
pub open spec fn merges_a_candidate(f: Seq<NodeView>, g: Seq<NodeView>) -> bool {
    exists|pair: (usize, usize)| #[trigger]
        is_candidate(f, pair) && g == merged(f, pair.0 as int, pair.1 as int)
}

/// The pair `p` comes before the pair `q`: by first node, then by second
/// node.
pub open spec fn pair_before(p: (usize, usize), q: (usize, usize)) -> bool {
    p.0 < q.0 || (p.0 == q.0 && p.1 < q.1)
}

/// The pairs of one first node are candidates when that node is parentless.
pub proof fn lemma_row_pairs(f: Seq<NodeView>, i: int, j: int)
    requires
        0 <= i < f.len(),
        j <= f.len() <= usize::MAX,
        is_parentless(f, i),
    ensures
        forall|k: int|
            0 <= k < row_pairs(f, i, j).len() ==> is_candidate(f, #[trigger] row_pairs(f, i, j)[k]),
    decreases j - i,
{
    if j > i + 1 {
        lemma_row_pairs(f, i, j - 1);
        let before = row_pairs(f, i, j - 1);
        let now = row_pairs(f, i, j);
        assert forall|k: int| 0 <= k < now.len() implies is_candidate(f, #[trigger] now[k]) by {
            if k < before.len() {
                assert(now[k] == before[k]);
            }
        }
    }
}

/// Every pair of the enumeration is a candidate.
pub proof fn lemma_pairs_upto(f: Seq<NodeView>, i: int)
    requires
        i <= f.len() <= usize::MAX,
    ensures
        forall|k: int|
            0 <= k < pairs_upto(f, i).len() ==> is_candidate(f, #[trigger] pairs_upto(f, i)[k]),
    decreases i,
{
    if i > 0 {
        lemma_pairs_upto(f, i - 1);
        let before = pairs_upto(f, i - 1);
        let now = pairs_upto(f, i);
        if is_parentless(f, i - 1) {
            lemma_row_pairs(f, i - 1, f.len() as int);
            let row = row_pairs(f, i - 1, f.len() as int);
            assert forall|k: int| 0 <= k < now.len() implies is_candidate(f, #[trigger] now[k]) by {
                if k < before.len() {
                    assert(now[k] == before[k]);
                } else {
                    assert(now[k] == row[k - before.len()]);
                }
            }
        }
    }
}

/// The pairs of one first node have that node first, and their second
/// nodes rise and stay below `j`.
proof fn lemma_row_pairs_rise(f: Seq<NodeView>, i: int, j: int)
    requires
        0 <= i,
        j <= usize::MAX + 1,
    ensures
        forall|k: int|
            0 <= k < row_pairs(f, i, j).len() ==> (#[trigger] row_pairs(f, i, j)[k]).0 == i && i
                < row_pairs(f, i, j)[k].1 < j,
        forall|p: int, q: int|
            0 <= p < q < row_pairs(f, i, j).len() ==> (#[trigger] row_pairs(f, i, j)[p]).1 < (
            #[trigger] row_pairs(f, i, j)[q]).1,
    decreases j - i,
{
    if j > i + 1 {
        lemma_row_pairs_rise(f, i, j - 1);
        let before = row_pairs(f, i, j - 1);
        let now = row_pairs(f, i, j);
        assert forall|k: int| 0 <= k < now.len() implies (#[trigger] now[k]).0 == i && i
            < now[k].1 < j by {
            if k < before.len() {
                assert(now[k] == before[k]);
            }
        }
        assert forall|p: int, q: int| 0 <= p < q < now.len() implies (#[trigger] now[p]).1 < (
        #[trigger] now[q]).1 by {
            assert(now[p] == before[p]);
            if q < before.len() {
                assert(now[q] == before[q]);
            }
        }
    }
}

/// The enumeration holds pairs whose first node comes before `i`, and it
/// rises: by first node, then by second node.
proof fn lemma_pairs_upto_rise(f: Seq<NodeView>, i: int)
    requires
        i <= f.len() <= usize::MAX,
    ensures
        forall|k: int| 0 <= k < pairs_upto(f, i).len() ==> (#[trigger] pairs_upto(f, i)[k]).0 < i,
        forall|p: int, q: int|
            0 <= p < q < pairs_upto(f, i).len() ==> pair_before(
                #[trigger] pairs_upto(f, i)[p],
                #[trigger] pairs_upto(f, i)[q],
            ),
    decreases i,
{
    if i > 0 {
        lemma_pairs_upto_rise(f, i - 1);
        let before = pairs_upto(f, i - 1);
        let now = pairs_upto(f, i);
        if is_parentless(f, i - 1) {
            lemma_row_pairs_rise(f, i - 1, f.len() as int);
            let row = row_pairs(f, i - 1, f.len() as int);
            assert forall|k: int| 0 <= k < now.len() implies (#[trigger] now[k]).0 < i by {
                if k < before.len() {
                    assert(now[k] == before[k]);
                } else {
                    assert(now[k] == row[k - before.len()]);
                }
            }
            assert forall|p: int, q: int| 0 <= p < q < now.len() implies pair_before(
                #[trigger] now[p],
                #[trigger] now[q],
            ) by {
                if q < before.len() {
                    assert(now[p] == before[p]);
                    assert(now[q] == before[q]);
                } else if p < before.len() {
                    assert(now[p] == before[p]);
                    assert(now[q] == row[q - before.len()]);
                } else {
                    assert(now[p] == row[p - before.len()]);
                    assert(now[q] == row[q - before.len()]);
                }
            }
        }
    }
}

/// A parentless second node is paired with its first node.
proof fn lemma_row_pairs_complete(f: Seq<NodeView>, i: int, b: int, j: int)
    requires
        0 <= i < b < j,
        is_parentless(f, b),
    ensures
        row_pairs(f, i, j).contains((i as usize, b as usize)),
    decreases j,
{
    let now = row_pairs(f, i, j);
    if j - 1 > b {
        lemma_row_pairs_complete(f, i, b, j - 1);
        let before = row_pairs(f, i, j - 1);
        let k = choose|k: int| 0 <= k < before.len() && before[k] == (i as usize, b as usize);
        assert(now[k] == before[k]);
    } else {
        assert(now[now.len() - 1] == (i as usize, b as usize));
    }
}

/// Two parentless nodes are paired.
proof fn lemma_pairs_upto_complete(f: Seq<NodeView>, a: int, b: int, i: int)
    requires
        0 <= a < b < f.len(),
        a < i,
        is_parentless(f, a),
        is_parentless(f, b),
    ensures
        pairs_upto(f, i).contains((a as usize, b as usize)),
    decreases i,
{
    let now = pairs_upto(f, i);
    let before = pairs_upto(f, i - 1);
    if i - 1 > a {
        lemma_pairs_upto_complete(f, a, b, i - 1);
        let k = choose|k: int| 0 <= k < before.len() && before[k] == (a as usize, b as usize);
        assert(now[k] == before[k]);
    } else {
        lemma_row_pairs_complete(f, a, b, f.len() as int);
        let row = row_pairs(f, a, f.len() as int);
        let k = choose|k: int| 0 <= k < row.len() && row[k] == (a as usize, b as usize);
        assert(now[before.len() + k] == row[k]);
    }
}

/// What the enumeration of the merge step is: it holds the candidate pairs,
/// all of them, each before every pair with a larger first node and before
/// every pair with the same first node and a larger second node.
pub proof fn lemma_candidate_pairs(f: Seq<NodeView>)
    requires
        f.len() <= usize::MAX,
    ensures
        forall|k: int|
            0 <= k < candidate_pairs(f).len() ==> is_candidate(f, #[trigger] candidate_pairs(f)[k]),
        forall|a: usize, b: usize|
            is_candidate(f, (a, b)) ==> #[trigger] candidate_pairs(f).contains((a, b)),
        forall|p: int, q: int|
            0 <= p < q < candidate_pairs(f).len() ==> pair_before(
                #[trigger] candidate_pairs(f)[p],
                #[trigger] candidate_pairs(f)[q],
            ),
{
    lemma_pairs_upto(f, f.len() as int);
    lemma_pairs_upto_rise(f, f.len() as int);
    assert forall|a: usize, b: usize| is_candidate(f, (a, b)) implies #[trigger] candidate_pairs(
        f,
    ).contains((a, b)) by {
        lemma_pairs_upto_complete(f, a as int, b as int, f.len() as int);
    }
}

/// The comparison of the keys orders them: nothing is below itself, and
/// both "below" and "not below" carry over from one pair to the next.
pub open spec fn orders<T: Scalar>(keys: Seq<T>) -> bool {
    &&& forall|i: int| 0 <= i < keys.len() ==> !below(#[trigger] keys[i], keys[i])
    &&& forall|i: int, j: int, k: int|
        0 <= i < keys.len() && 0 <= j < keys.len() && 0 <= k < keys.len() && #[trigger] below(
            keys[i],
            keys[j],
        ) && #[trigger] below(keys[j], keys[k]) ==> below(keys[i], keys[k])
    &&& forall|i: int, j: int, k: int|
        0 <= i < keys.len() && 0 <= j < keys.len() && 0 <= k < keys.len() && !(#[trigger] below(
            keys[i],
            keys[j],
        )) && !(#[trigger] below(keys[j], keys[k])) ==> !below(keys[i], keys[k])
}

/// Where the comparison orders the keys, the place that is chosen holds a
/// least key, and every key before it is larger: among several least keys
/// the first is taken.
pub proof fn lemma_first_least<T: Scalar>(keys: Seq<T>, n: int)
    requires
        1 <= n <= keys.len(),
        orders(keys),
    ensures
        0 <= first_least(keys, n) < n,
        forall|k: int| 0 <= k < n ==> !below(#[trigger] keys[k], keys[first_least(keys, n)]),
        forall|k: int|
            0 <= k < first_least(keys, n) ==> below(keys[first_least(keys, n)], #[trigger] keys[k]),
    decreases n,
{
    if n > 1 {
        lemma_first_least(keys, n - 1);
        let old_best = first_least(keys, n - 1);
        let best = first_least(keys, n);
        if below(keys[n - 1], keys[old_best]) {
            assert forall|k: int| 0 <= k < n implies !below(#[trigger] keys[k], keys[best]) by {
                if k < n - 1 && below(keys[k], keys[n - 1]) {
                    assert(below(keys[k], keys[old_best]));
                }
            }
            assert forall|k: int| 0 <= k < best implies below(keys[best], #[trigger] keys[k]) by {
                if !below(keys[n - 1], keys[k]) {
                    assert(!below(keys[k], keys[old_best]));
                    assert(!below(keys[n - 1], keys[old_best]));
                }
            }
        }
    }
}

/// A parentless second node gives its first node a pair.
proof fn lemma_row_pairs_nonempty(f: Seq<NodeView>, i: int, b: int, j: int)
    requires
        0 <= i < b < j,
        is_parentless(f, b),
    ensures
        row_pairs(f, i, j).len() > 0,
    decreases j - i,
{
    if j - 1 > b {
        lemma_row_pairs_nonempty(f, i, b, j - 1);
    }
}

/// Two parentless nodes give the enumeration a pair.
proof fn lemma_pairs_nonempty(f: Seq<NodeView>, a: int, b: int, i: int)
    requires
        0 <= a < b < f.len(),
        a < i,
        is_parentless(f, a),
        is_parentless(f, b),
    ensures
        pairs_upto(f, i).len() > 0,
    decreases i,
{
    if i - 1 > a {
        lemma_pairs_nonempty(f, a, b, i - 1);
    } else {
        lemma_row_pairs_nonempty(f, a, b, f.len() as int);
    }
}

/// The last parentless node among the first `n`, where one is counted.
proof fn lemma_find_parentless(f: Seq<NodeView>, n: int) -> (k: int)
    requires
        parentless_upto(f, n) >= 1,
    ensures
        0 <= k < n,
        is_parentless(f, k),
        parentless_upto(f, k) == parentless_upto(f, n) - 1,
    decreases n,
{
    if is_parentless(f, n - 1) {
        n - 1
    } else {
        lemma_find_parentless(f, n - 1)
    }
}

/// While two nodes are parentless there is a pair to merge.
pub proof fn lemma_candidates_exist(f: Seq<NodeView>)
    requires
        parentless_count(f) >= 2,
    ensures
        candidate_pairs(f).len() > 0,
{
    let b = lemma_find_parentless(f, f.len() as int);
    let a = lemma_find_parentless(f, b);
    lemma_pairs_nonempty(f, a, b, f.len() as int);
}

/// The least key is one of the keys.
pub proof fn lemma_first_least_in_range<T: Scalar>(keys: Seq<T>, n: int)
    requires
        1 <= n,
    ensures
        0 <= first_least(keys, n) < n,
    decreases n,
{
    if n > 1 {
        lemma_first_least_in_range(keys, n - 1);
    }
}

/// The pair that is merged next is a pair of two parentless nodes.
pub proof fn lemma_closest_pair<T: Scalar>(
    f: Seq<NodeView>,
    linkage: LinkageFunction,
    distance_matrix: Matrix<T>,
    data_matrix: Matrix<T>,
)
    requires
        f.len() <= usize::MAX,
        parentless_count(f) >= 2,
    ensures
        is_candidate(f, closest_pair(f, linkage, distance_matrix, data_matrix)),
{
    let pairs = candidate_pairs(f);
    let keys = pair_keys(f, pairs, linkage, distance_matrix, data_matrix);
    lemma_candidates_exist(f);
    lemma_pairs_upto(f, f.len() as int);
    lemma_first_least_in_range(keys, keys.len() as int);
}

/// Each of the first `n - 1` merge steps on `n` leaves finds two parentless
/// nodes to merge; after `k` steps the arena holds `n + k` nodes, `n - k` of
/// them parentless.
pub proof fn lemma_after_merges<T: Scalar>(
    n: nat,
    k: nat,
    linkage: LinkageFunction,
    distance_matrix: Matrix<T>,
    data_matrix: Matrix<T>,
)
    requires
        k < n,
        2 * n - 1 <= usize::MAX,
    ensures
        forest_over(after_merges(n, k, linkage, distance_matrix, data_matrix), n),
        after_merges(n, k, linkage, distance_matrix, data_matrix).len() == n + k,
        parentless_count(after_merges(n, k, linkage, distance_matrix, data_matrix)) == n - k,
    decreases k,
{
    if k == 0 {
        lemma_leaf_forest_over(n);
    } else {
        let f = after_merges(n, (k - 1) as nat, linkage, distance_matrix, data_matrix);
        lemma_after_merges(n, (k - 1) as nat, linkage, distance_matrix, data_matrix);
        lemma_closest_pair(f, linkage, distance_matrix, data_matrix);
        let pair = closest_pair(f, linkage, distance_matrix, data_matrix);
        lemma_merged_over(f, n, pair.0 as int, pair.1 as int);
    }
}

/// Clustering `n >= 1` rows makes exactly `n - 1` merges: the tree then
/// holds `2n - 1` nodes, its last node is the only one without a parent, and
/// that node covers every row once.
pub proof fn lemma_clustered<T: Scalar>(
    data: Matrix<T>,
    metric: DistanceMetric,
    linkage: LinkageFunction,
)
    requires
        2 * data.rows - 1 <= usize::MAX,
    ensures
        forest_over(clustered(data, metric, linkage), data.rows),
        data.rows >= 1 ==> {
            let f = clustered(data, metric, linkage);
            &&& f.len() == 2 * data.rows - 1
            &&& parentless_count(f) == 1
            &&& is_parentless(f, f.len() - 1)
            &&& is_permutation(f[f.len() - 1].indices, data.rows)
        },
{
    let n = data.rows;
    if n == 0 {
        lemma_leaf_forest_over(0);
    } else {
        let dist = distance_grid(data, metric);
        lemma_after_merges(n, (n - 1) as nat, linkage, dist, data);
        lemma_root_covers(clustered(data, metric, linkage), n);
    }
}

/// The display order of the rows of a matrix holds every row once.
pub proof fn lemma_cluster_order<T: Scalar>(
    data: Matrix<T>,
    metric: DistanceMetric,
    linkage: LinkageFunction,
)
    requires
        2 * data.rows - 1 <= usize::MAX,
    ensures
        is_permutation(cluster_order(data, metric, linkage), data.rows),
{
    lemma_clustered(data, metric, linkage);
    lemma_display_order(clustered(data, metric, linkage), data.rows);
}

/// The linkage can be evaluated on a forest over `n` leaves when the matrix
/// that it reads has a row, and for the distance matrix a column, for each
/// leaf.
pub open spec fn linkage_fits<T: Scalar>(
    n: nat,
    linkage: LinkageFunction,
    distance_matrix: Matrix<T>,
    data_matrix: Matrix<T>,
) -> bool {
    match linkage {
        LinkageFunction::Average => n <= distance_matrix.rows && n <= distance_matrix.cols,
        LinkageFunction::Ward => n <= data_matrix.rows,
    }
}

/// See [`linkage_fits`].
pub proof fn lemma_linkage_applies<T: Scalar>(
    f: Seq<NodeView>,
    n: nat,
    linkage: LinkageFunction,
    distance_matrix: Matrix<T>,
    data_matrix: Matrix<T>,
)
    requires
        forest_over(f, n),
        linkage_fits(n, linkage, distance_matrix, data_matrix),
    ensures
        linkage_applies(f, linkage, distance_matrix, data_matrix),
{
    assert forall|a: int| 0 <= a < f.len() implies all_below(#[trigger] f[a].indices, n) by {
        assert(node_wf(f, a));
        assert forall|i: int| 0 <= i < f[a].indices.len() implies (#[trigger] f[a].indices[i])
            < n by {
            assert(is_leaf(f, f[a].indices[i] as int));
        }
    }
    assert forall|a: int, b: int|
        0 <= a < f.len() && 0 <= b < f.len() && #[trigger] is_parentless(f, a)
            && #[trigger] is_parentless(f, b) implies linkage.applies(
        f[a].indices,
        f[b].indices,
        distance_matrix,
        data_matrix,
    ) by {
        assert(all_below(f[a].indices, n));
        assert(all_below(f[b].indices, n));
    }
}

} // verus!
