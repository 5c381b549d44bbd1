use crust::tree::{HcTree, Node};

fn create_test_tree_for_ladderized_traversal() -> HcTree {
    let mut nodes = Vec::new();

    // Leaves: L0, L1, L2, L3, L4
    nodes.push(Node {
        id: 0,
        parent: None,
        children: vec![],
        indices: vec![0],
    });
    nodes.push(Node {
        id: 1,
        parent: None,
        children: vec![],
        indices: vec![1],
    });
    nodes.push(Node {
        id: 2,
        parent: None,
        children: vec![],
        indices: vec![2],
    });
    nodes.push(Node {
        id: 3,
        parent: None,
        children: vec![],
        indices: vec![3],
    });
    nodes.push(Node {
        id: 4,
        parent: None,
        children: vec![],
        indices: vec![4],
    });

    // Node 5 joins L1 and L2.
    nodes.push(Node {
        id: 5,
        parent: None,
        children: vec![1, 2],
        indices: vec![1, 2],
    });
    nodes[1].parent = Some(5);
    nodes[2].parent = Some(5);

    // Node 6 joins L3 and L4.
    nodes.push(Node {
        id: 6,
        parent: None,
        children: vec![3, 4],
        indices: vec![3, 4],
    });
    nodes[3].parent = Some(6);
    nodes[4].parent = Some(6);

    // Node 7 joins L0 (one leaf) and node 5 (two leaves): display order is [5, 0].
    nodes.push(Node {
        id: 7,
        parent: None,
        children: vec![0, 5],
        indices: vec![0, 1, 2],
    });
    nodes[0].parent = Some(7);
    nodes[5].parent = Some(7);

    // The root joins node 6 (two leaves) and node 7 (three): display order is [7, 6].
    nodes.push(Node {
        id: 8,
        parent: None,
        children: vec![6, 7],
        indices: vec![0, 1, 2, 3, 4],
    });
    nodes[6].parent = Some(8);
    nodes[7].parent = Some(8);

    HcTree { nodes }
}

fn preorder_ids(tree: &HcTree) -> Vec<usize> {
    let mut visited = Vec::new();
    let mut traversal = tree.preorder_node_traversal();
    while let Some(node) = traversal.next() {
        visited.push(node.id);
    }
    visited
}

#[test]
fn ladderize_tree_test() {
    let mut tree = create_test_tree_for_ladderized_traversal();
    tree.ladderize();

    let visited_ids: Vec<usize> = preorder_ids(&tree);

    let expected_order = vec![8, 7, 5, 1, 2, 0, 6, 3, 4];

    assert_eq!(
        visited_ids, expected_order,
        "Ladderized preorder traversal order mismatch for binary tree"
    );
}

fn leaf_ids(tree: &HcTree) -> Vec<usize> {
    let mut visited = Vec::new();
    let mut traversal = tree.preorder_leaf_traversal();
    while let Some(node) = traversal.next() {
        assert!(node.children.is_empty());
        visited.push(node.id);
    }
    visited
}

fn children_of(tree: &HcTree) -> Vec<Vec<usize>> {
    tree.nodes.iter().map(|node| node.children.clone()).collect()
}

/// The fixture built by tree operations instead of by hand.
fn merged_test_tree() -> HcTree {
    let mut tree = HcTree::initialize_new_tree(5);
    tree.merge(1, 2);
    tree.merge(3, 4);
    tree.merge(0, 5);
    tree.merge(6, 7);
    tree
}

#[test]
fn new_tree_holds_unmerged_leaves() {
    let tree = HcTree::initialize_new_tree(4);
    assert_eq!(tree.nodes.len(), 4);
    for (index, node) in tree.nodes.iter().enumerate() {
        assert_eq!(node.id, index);
        assert_eq!(node.parent, None);
        assert!(node.children.is_empty());
        assert_eq!(node.indices, vec![index]);
    }
    assert_eq!(tree.parentless_count(), 4);
    assert_eq!(tree.root().map(|node| node.id), Some(3));
}

#[test]
fn empty_tree_has_no_root() {
    let mut tree = HcTree::initialize_new_tree(0);
    assert!(tree.nodes.is_empty());
    assert!(tree.root().is_none());
    assert_eq!(tree.parentless_count(), 0);
    assert!(preorder_ids(&tree).is_empty());
    assert!(tree.leaf_order().is_empty());
    tree.ladderize();
    assert!(tree.nodes.is_empty());
}

#[test]
fn single_leaf_is_its_own_root() {
    let mut tree = HcTree::initialize_new_tree(1);
    tree.ladderize();
    assert_eq!(preorder_ids(&tree), vec![0]);
    assert_eq!(tree.leaf_order(), vec![0]);
    assert_eq!(tree.root().map(|node| node.id), Some(0));
    assert_eq!(tree.nodes[0].get_subtree_size(&tree), 1);
}

#[test]
fn update_parent_sets_the_parent_only() {
    let mut node = Node {
        id: 3,
        parent: None,
        children: vec![1, 2],
        indices: vec![1, 2],
    };
    node.update_parent(9);
    assert_eq!(node.parent, Some(9));
    assert_eq!(node.id, 3);
    assert_eq!(node.children, vec![1, 2]);
    assert_eq!(node.indices, vec![1, 2]);
}

#[test]
fn merge_appends_one_node() {
    let mut tree = HcTree::initialize_new_tree(3);
    tree.merge(2, 0);
    assert_eq!(tree.nodes.len(), 4);
    let joined = &tree.nodes[3];
    assert_eq!(joined.id, 3);
    assert_eq!(joined.parent, None);
    assert_eq!(joined.children, vec![2, 0]);
    assert_eq!(joined.indices, vec![2, 0]);
    assert_eq!(tree.nodes[0].parent, Some(3));
    assert_eq!(tree.nodes[2].parent, Some(3));
    assert_eq!(tree.nodes[1].parent, None);
    assert_eq!(tree.parentless_count(), 2);

    tree.merge(1, 3);
    assert_eq!(tree.nodes.len(), 5);
    assert_eq!(tree.nodes[4].children, vec![1, 3]);
    assert_eq!(tree.nodes[4].indices, vec![1, 2, 0]);
    assert_eq!(tree.nodes[3].parent, Some(4));
    assert_eq!(tree.parentless_count(), 1);
    assert_eq!(tree.root().map(|node| node.id), Some(4));
}

#[test]
fn merged_tree_matches_the_fixture() {
    let by_hand = create_test_tree_for_ladderized_traversal();
    let by_merges = merged_test_tree();
    assert_eq!(by_merges.nodes.len(), by_hand.nodes.len());
    for (a, b) in by_merges.nodes.iter().zip(by_hand.nodes.iter()) {
        assert_eq!(a.id, b.id);
        assert_eq!(a.parent, b.parent);
        assert_eq!(a.children, b.children);
        let mut left = a.indices.clone();
        let mut right = b.indices.clone();
        left.sort();
        right.sort();
        assert_eq!(left, right);
    }
    assert_eq!(by_merges.nodes[8].indices, vec![3, 4, 0, 1, 2]);
}

#[test]
fn subtree_size_counts_the_leaves() {
    let tree = create_test_tree_for_ladderized_traversal();
    let sizes: Vec<usize> = tree
        .nodes
        .iter()
        .map(|node| node.get_subtree_size(&tree))
        .collect();
    assert_eq!(sizes, vec![1, 1, 1, 1, 1, 2, 2, 3, 5]);
}

#[test]
fn preorder_visits_a_node_before_its_children() {
    let tree = create_test_tree_for_ladderized_traversal();
    assert_eq!(preorder_ids(&tree), vec![8, 6, 3, 4, 7, 0, 5, 1, 2]);
    // a traversal can be started again
    assert_eq!(preorder_ids(&tree), vec![8, 6, 3, 4, 7, 0, 5, 1, 2]);
    assert_eq!(leaf_ids(&tree), vec![3, 4, 0, 1, 2]);
    assert_eq!(tree.leaf_order(), vec![3, 4, 0, 1, 2]);
}

#[test]
fn traversal_of_an_unfinished_forest_starts_at_the_last_node() {
    let mut tree = HcTree::initialize_new_tree(4);
    tree.merge(0, 1);
    assert_eq!(preorder_ids(&tree), vec![4, 0, 1]);
    assert_eq!(leaf_ids(&tree), vec![0, 1]);
    let mut traversal = tree.preorder_node_traversal();
    assert_eq!(traversal.next().map(|node| node.id), Some(4));
    assert_eq!(traversal.next().map(|node| node.id), Some(0));
    assert_eq!(traversal.next().map(|node| node.id), Some(1));
    assert!(traversal.next().is_none());
    assert!(traversal.next().is_none());
}

#[test]
fn ladderize_puts_the_larger_subtree_first() {
    let mut tree = create_test_tree_for_ladderized_traversal();
    tree.ladderize();
    assert_eq!(
        children_of(&tree),
        vec![
            vec![],
            vec![],
            vec![],
            vec![],
            vec![],
            vec![1, 2],
            vec![3, 4],
            vec![5, 0],
            vec![7, 6],
        ]
    );
    assert_eq!(leaf_ids(&tree), vec![1, 2, 0, 3, 4]);
    assert_eq!(tree.leaf_order(), vec![1, 2, 0, 3, 4]);
    // membership and links are untouched
    let before = create_test_tree_for_ladderized_traversal();
    for (a, b) in tree.nodes.iter().zip(before.nodes.iter()) {
        assert_eq!(a.id, b.id);
        assert_eq!(a.parent, b.parent);
        assert_eq!(a.indices, b.indices);
    }
}

#[test]
fn ladderize_twice_is_ladderize_once() {
    let mut tree = create_test_tree_for_ladderized_traversal();
    tree.ladderize();
    let once = children_of(&tree);
    tree.ladderize();
    assert_eq!(children_of(&tree), once);

    let mut merged = merged_test_tree();
    merged.ladderize();
    let once = children_of(&merged);
    merged.ladderize();
    assert_eq!(children_of(&merged), once);
}

#[test]
fn ladderize_keeps_the_order_of_equal_subtrees() {
    let mut tree = HcTree::initialize_new_tree(4);
    tree.merge(2, 3);
    tree.merge(1, 0);
    tree.merge(4, 5);
    tree.ladderize();
    assert_eq!(tree.nodes[4].children, vec![2, 3]);
    assert_eq!(tree.nodes[5].children, vec![1, 0]);
    assert_eq!(tree.nodes[6].children, vec![4, 5]);
    assert_eq!(tree.leaf_order(), vec![2, 3, 1, 0]);
}

#[test]
fn ladderize_leaves_other_trees_of_a_forest_alone() {
    let mut tree = HcTree::initialize_new_tree(5);
    tree.merge(0, 1);
    tree.merge(2, 5);
    tree.merge(3, 4);
    // the last node is 7 = [3, 4]; node 6 = [2, 5] is not below it
    tree.ladderize();
    assert_eq!(tree.nodes[6].children, vec![2, 5]);
    assert_eq!(tree.nodes[7].children, vec![3, 4]);
}
