//! Agglomerative hierarchical clustering of a dense matrix.
//!
//! The crate computes the pairwise distances between the rows (or columns)
//! of a matrix, merges the closest clusters into a binary tree, orders the
//! leaves of that tree for display as a dendrogram and hands back the matrix
//! in that order. Every function carries a contract that Verus proves.
//!
//! * [`scalar`]: the arithmetic asked of the element type of a matrix;
//! * [`matrix`], [`utils`]: a matrix as a value, and views of a flat buffer
//!   that show one without copying;
//! * [`distance`], [`linkage`]: distances between vectors and between
//!   clusters;
//! * [`forest`], [`tree`]: the merge tree as a value and as an arena of
//!   nodes, its traversal and its ladderization;
//! * [`merging`], [`cluster`]: which clusters are merged in which order, and
//!   the clustering calls themselves.
//!
//! The element type is abstract. What shape a result has (a tree over all
//! leaves, an order that holds every row once, a buffer reordered by both
//! orders) is proved for every element type; which value a computation
//! yields is proved for element types whose operations are functions of
//! their operands, see [`scalar::functional`].
pub mod cluster;
pub mod distance;
pub mod error;
pub mod forest;
pub mod linkage;
pub mod matrix;
pub mod merging;
pub mod scalar;
pub mod tree;
pub mod utils;

pub use cluster::{
    cluster_tree_with_views, cluster_with_views, compute_distance_matrix_from_view,
    find_nodes_to_merge_with_view, hierarchical_clustering, ClusteringAxis,
    HierarchicalClusteringResult,
};
