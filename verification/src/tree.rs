//! The merge tree: an append-only arena of cluster nodes.
use crate::forest::{
    forest_wf, ladder_children, ladderized, ladderized_below, leaf_forest, leaf_order,
    leaves_among, lemma_ladder_children_stable, lemma_leaf_forest_wf, lemma_merged_wf,
    lemma_pending_push_children, lemma_same_shape_subtree, lemma_same_shape_trans,
    lemma_same_shape_wf, lemma_subtree_of_children, lemma_subtree_of_leaf,
    lemma_subtree_size_is_cover, merged, mergeable, node_wf, parentless_count, parentless_upto,
    pending, preorder, preorder_of, same_shape, subtree_size, NodeView,
};
use vstd::prelude::*;

verus! {

/// One cluster. A leaf stands for a single input item; an internal node
/// for the union of its two children.
#[derive(Debug)]
pub struct Node {
    /// Position of the node in the arena.
    pub id: usize,
    /// The node that this one was merged into, if any.
    pub parent: Option<usize>,
    /// Empty for a leaf, two ids otherwise, in display order.
    pub children: Vec<usize>,
    /// The input items that the subtree covers.
    pub indices: Vec<usize>,
}

impl View for Node {
    type V = NodeView;

    open spec fn view(&self) -> NodeView {
        NodeView {
            id: self.id,
            parent: self.parent,
            children: self.children@,
            indices: self.indices@,
        }
    }
}

/// The arena. Nodes are only ever appended, so a child's id is smaller than
/// its parent's.
pub struct HcTree {
    /// The nodes, each at the position that its id names.
    pub nodes: Vec<Node>,
}

/// A depth-first traversal of a tree, a node before its children.
pub struct PreorderIter<'a> {
    tree: &'a HcTree,
    stack: Vec<usize>,
}

/// The same traversal, handing out the leaves only.
pub struct PreOrderLeafIter<'a> {
    inner: PreorderIter<'a>,
}

/// The views of a sequence of nodes, position by position.
pub open spec fn forest_of(nodes: Seq<Node>) -> Seq<NodeView> {
    Seq::new(nodes.len(), |k: int| nodes[k]@)
}

impl View for HcTree {
    type V = Seq<NodeView>;

    open spec fn view(&self) -> Seq<NodeView> {
        forest_of(self.nodes@)
    }
}

impl Node {
    /// Records that the node was merged into node `index`. A node is merged
    /// once: it must not have a parent yet.
    pub fn update_parent(&mut self, index: usize)
        requires
            old(self).parent is None,
        ensures
            final(self).parent == Some(index),
            final(self).id == old(self).id,
            final(self).children == old(self).children,
            final(self).indices == old(self).indices,
    {
        self.parent = Some(index);
    }

    /// Counts the leaves below this node of `tree`.
    pub fn get_subtree_size(&self, tree: &HcTree) -> (size: usize)
        requires
            tree.wf(),
            self.id < tree.nodes.len(),
            self@ == tree@[self.id as int],
        ensures
            size == subtree_size(tree@, self.id as int),
            size == self.indices.len(),
        decreases self.id,
    {
        proof {
            assert(node_wf(tree@, self.id as int));
            lemma_subtree_size_is_cover(tree@, self.id as int);
        }
        if self.children.len() == 0 {
            1
        } else {
            let first = self.children[0];
            let second = self.children[1];
            proof {
                assert(node_wf(tree@, first as int));
                assert(node_wf(tree@, second as int));
                lemma_subtree_size_is_cover(tree@, first as int);
                lemma_subtree_size_is_cover(tree@, second as int);
            }
            let left = tree.nodes[first].get_subtree_size(tree);
            let right = tree.nodes[second].get_subtree_size(tree);
            assert(left + right == self.indices.len());
            left + right
        }
    }
}

/// Merges the parentless nodes `first` and `second` of the arena `nodes`
/// into a new node, which is appended.
pub fn merge_nodes(nodes: &mut Vec<Node>, first: usize, second: usize)
    requires
        forest_wf(forest_of(old(nodes)@)),
        mergeable(forest_of(old(nodes)@), first as int, second as int),
    ensures
        forest_of(final(nodes)@) == merged(forest_of(old(nodes)@), first as int, second as int),
        forest_wf(forest_of(final(nodes)@)),
{
    let next_index = nodes.len();
    let mut indices: Vec<usize> = Vec::new();
    indices.extend_from_slice(nodes[first].indices.as_slice());
    indices.extend_from_slice(nodes[second].indices.as_slice());
    nodes[first].update_parent(next_index);
    nodes[second].update_parent(next_index);
    let children: Vec<usize> = vec![first, second];
    nodes.push(Node { id: next_index, parent: None, children, indices });
    proof {
        let f = forest_of(old(nodes)@);
        let g = merged(f, first as int, second as int);
        assert(nodes@.len() == nodes.len());
        lemma_merged_wf(f, first as int, second as int);
        assert(nodes@[next_index as int].children@ =~= seq![first, second]);
        let ia = f[first as int].indices;
        let ib = f[second as int].indices;
        assert(nodes@[next_index as int].indices@ =~= ia + ib);
        assert forall|k: int| 0 <= k < g.len() implies forest_of(nodes@)[k] == g[k] by {
            if k < next_index {
                assert(f[k] == old(nodes)@[k]@);
            }
        }
        assert(forest_of(nodes@) =~= g);
    }
}

impl HcTree {
    /// The arena invariant, see [`forest_wf`].
    pub open spec fn wf(&self) -> bool {
        forest_wf(self@)
    }

    /// A tree of `number_of_nodes` leaves, none of them merged.
    pub fn initialize_new_tree(number_of_nodes: usize) -> (tree: HcTree)
        ensures
            tree@ == leaf_forest(number_of_nodes as nat),
            tree.wf(),
    {
        let mut nodes: Vec<Node> = Vec::new();
        let mut index: usize = 0;
        while index < number_of_nodes
            invariant
                index <= number_of_nodes,
                nodes@.len() == index,
                forest_of(nodes@) =~= leaf_forest(index as nat),
            decreases number_of_nodes - index,
        {
            let node = Node {
                id: index,
                parent: None,
                children: Vec::with_capacity(2),
                indices: vec![index],
            };
            let ghost before = nodes@;
            nodes.push(node);
            proof {
                assert(nodes@[index as int].indices@ =~= seq![index]);
                assert forall|k: int| 0 <= k < index + 1 implies forest_of(nodes@)[k]
                    == leaf_forest((index + 1) as nat)[k] by {
                    if k < index {
                        assert(nodes@[k] == before[k]);
                        assert(forest_of(before)[k] == leaf_forest(index as nat)[k]);
                    }
                }
            }
            index += 1;
        }
        proof {
            lemma_leaf_forest_wf(number_of_nodes as nat);
        }
        HcTree { nodes }
    }

    /// Merges the parentless nodes `first` and `second` into a new node,
    /// which is appended to the arena.
    pub fn merge(&mut self, first: usize, second: usize)
        requires
            old(self).wf(),
            mergeable(old(self)@, first as int, second as int),
        ensures
            final(self)@ == merged(old(self)@, first as int, second as int),
            final(self).wf(),
    {
        merge_nodes(&mut self.nodes, first, second);
    }

    /// Counts the nodes that have not been merged yet.
    pub fn parentless_count(&self) -> (count: usize)
        ensures
            count == parentless_count(self@),
    {
        let mut count: usize = 0;
        let mut index: usize = 0;
        while index < self.nodes.len()
            invariant
                index <= self.nodes.len(),
                count <= index,
                count == parentless_upto(self@, index as int),
            decreases self.nodes.len() - index,
        {
            if self.nodes[index].parent.is_none() {
                count += 1;
            }
            index += 1;
        }
        count
    }

    /// A traversal of the whole tree, from the last node down.
    pub fn preorder_node_traversal(&self) -> (traversal: PreorderIter<'_>)
        requires
            self.wf(),
        ensures
            traversal.wf(),
            traversal.tree() == *self,
            traversal.remaining() == preorder_of(self@),
    {
        let mut stack: Vec<usize> = Vec::new();
        if self.nodes.len() > 0 {
            stack.push(self.nodes.len() - 1);
            proof {
                let last = (self.nodes.len() - 1) as usize;
                assert(stack@.drop_last() =~= Seq::<usize>::empty());
                assert(pending(self@, Seq::<usize>::empty()) =~= Seq::<usize>::empty());
                assert(stack@.last() == last);
                assert(pending(self@, stack@) =~= preorder(self@, last as int));
            }
        }
        PreorderIter { tree: self, stack }
    }

    /// A traversal of the leaves of the whole tree.
    pub fn preorder_leaf_traversal(&self) -> (traversal: PreOrderLeafIter<'_>)
        requires
            self.wf(),
        ensures
            traversal.wf(),
            traversal.tree() == *self,
            traversal.remaining() == leaf_order(self@),
    {
        PreOrderLeafIter { inner: self.preorder_node_traversal() }
    }

    /// The ids of the leaves in the order in which the traversal meets them.
    pub fn leaf_order(&self) -> (order: Vec<usize>)
        requires
            self.wf(),
        ensures
            order@ == leaf_order(self@),
    {
        let mut order: Vec<usize> = Vec::new();
        let mut leaves = self.preorder_leaf_traversal();
        loop
            invariant
                self.wf(),
                leaves.wf(),
                leaves.tree() == *self,
                order@ + leaves.remaining() == leaf_order(self@),
            decreases leaves.remaining().len(),
        {
            let ghost before = leaves.remaining();
            match leaves.next() {
                None => {
                    proof {
                        assert(order@ + before =~= order@);
                    }
                    return order;
                },
                Some(node) => {
                    proof {
                        assert(node_wf(self@, before[0] as int));
                        assert(self@[before[0] as int] == node@);
                        assert(order@.push(node.id) + before.skip(1) =~= order@ + before);
                    }
                    order.push(node.id);
                },
            }
        }
    }

    /// Puts the children of every node of the tree in display order: the
    /// larger subtree first.
    pub fn ladderize(&mut self)
        requires
            old(self).wf(),
        ensures
            final(self).wf(),
            final(self)@ == ladderized(old(self)@),
    {
        if self.nodes.len() > 0 {
            let root_id = self.nodes.len() - 1;
            self.ladderize_node(root_id);
        }
    }

    fn ladderize_node(&mut self, node_id: usize)
        requires
            old(self).wf(),
            node_id < old(self).nodes.len(),
        ensures
            final(self).wf(),
            final(self)@ == ladderized_below(old(self)@, node_id as int),
        decreases node_id,
    {
        let ghost f0 = self@;
        proof {
            assert(node_wf(f0, node_id as int));
        }
        if self.nodes[node_id].children.len() == 2 {
            let first = self.nodes[node_id].children[0];
            let second = self.nodes[node_id].children[1];
            proof {
                assert(node_wf(f0, first as int));
                assert(node_wf(f0, second as int));
            }
            let first_size = self.nodes[first].get_subtree_size(self);
            let second_size = self.nodes[second].get_subtree_size(self);
            let (larger, smaller) = if first_size < second_size {
                self.nodes[node_id].children = vec![second, first];
                (second, first)
            } else {
                (first, second)
            };
            let ghost f1 = self@;
            proof {
                assert(f1[node_id as int].children =~= ladder_children(f0, node_id as int));
                assert forall|k: int| 0 <= k < f0.len() && k != node_id implies f1[k]
                    == f0[k] by {
                    assert(self.nodes@[k] == old(self).nodes@[k]);
                }
                assert(same_shape(f0, f1));
                lemma_same_shape_wf(f0, f1);
            }
            self.ladderize_node(larger);
            let ghost f2 = self@;
            proof {
                assert(same_shape(f1, f2));
                lemma_same_shape_trans(f0, f1, f2);
                lemma_same_shape_wf(f0, f2);
            }
            self.ladderize_node(smaller);
            proof {
                let f3 = self@;
                let goal = ladderized_below(f0, node_id as int);
                assert(same_shape(f2, f3));
                assert forall|k: int| 0 <= k < f0.len() implies f3[k] == goal[k] by {
                    lemma_subtree_of_children(f0, node_id as int, k);
                    lemma_same_shape_subtree(f0, f1, larger as int, k);
                    lemma_same_shape_subtree(f0, f2, smaller as int, k);
                    lemma_ladder_children_stable(f0, f1, k);
                    lemma_ladder_children_stable(f0, f2, k);
                }
                assert(f3 =~= goal);
            }
        } else {
            proof {
                let goal = ladderized_below(f0, node_id as int);
                assert forall|k: int| 0 <= k < f0.len() implies f0[k] == goal[k] by {
                    lemma_subtree_of_leaf(f0, node_id as int, k);
                    assert(ladder_children(f0, node_id as int) == f0[node_id as int].children);
                }
                assert(f0 =~= goal);
            }
        }
    }

    /// The node appended last, which is the root once clustering is complete.
    pub fn root(&self) -> (root: Option<&Node>)
        ensures
            self.nodes.len() == 0 ==> root is None,
            self.nodes.len() > 0 ==> root == Some(&self.nodes[self.nodes.len() - 1]),
    {
        if self.nodes.len() == 0 {
            None
        } else {
            Some(&self.nodes[self.nodes.len() - 1])
        }
    }
}

impl<'a> PreorderIter<'a> {
    /// The tree that is traversed.
    pub closed spec fn tree(&self) -> HcTree {
        *self.tree
    }

    /// The nodes still to come, in order.
    pub closed spec fn remaining(&self) -> Seq<usize> {
        pending(self.tree@, self.stack@)
    }

    /// The traversal's invariant: its tree is well formed and its stack holds
    /// nodes of that tree.
    pub closed spec fn wf(&self) -> bool {
        &&& self.tree.wf()
        &&& forall|i: int|
            0 <= i < self.stack@.len() ==> (#[trigger] self.stack@[i]) < self.tree.nodes.len()
    }

    /// The next node of the traversal, `None` when it is over.
    pub fn next(&mut self) -> (node: Option<&'a Node>)
        requires
            old(self).wf(),
        ensures
            final(self).wf(),
            final(self).tree() == old(self).tree(),
            match node {
                Some(node) => {
                    &&& old(self).remaining().len() > 0
                    &&& old(self).remaining()[0] < old(self).tree().nodes.len()
                    &&& *node == old(self).tree().nodes[old(self).remaining()[0] as int]
                    &&& final(self).remaining() == old(self).remaining().skip(1)
                },
                None => old(self).remaining().len() == 0 && final(self).remaining().len() == 0,
            },
    {
        let tree: &'a HcTree = self.tree;
        match self.stack.pop() {
            None => None,
            Some(current_index) => {
                let current_node = &tree.nodes[current_index];
                let ghost rest = self.stack@;
                let ghost f = tree@;
                proof {
                    assert(old(self).stack@.drop_last() =~= rest);
                    assert(node_wf(f, current_index as int));
                    lemma_pending_push_children(f, rest, current_index as int);
                }
                // The last child goes in first, so that the first child is visited first.
                let mut position = current_node.children.len();
                while position > 0
                    invariant
                        position <= current_node.children.len(),
                        self.tree == tree,
                        tree.wf(),
                        current_index < tree.nodes.len(),
                        *current_node == tree.nodes[current_index as int],
                        self.stack@.len() == rest.len() + current_node.children.len() - position,
                        forall|i: int| 0 <= i < rest.len() ==> self.stack@[i] == rest[i],
                        forall|i: int|
                            rest.len() <= i < self.stack@.len() ==> self.stack@[i]
                                == current_node.children@[current_node.children.len() - 1 - (i
                                - rest.len())],
                        forall|i: int|
                            0 <= i < rest.len() ==> (#[trigger] rest[i]) < tree.nodes.len(),
                    decreases position,
                {
                    position -= 1;
                    self.stack.push(current_node.children[position]);
                }
                proof {
                    assert(node_wf(f, current_index as int));
                    if current_node.children.len() == 0 {
                        assert(self.stack@ =~= rest);
                    } else {
                        assert(self.stack@ =~= rest.push(f[current_index as int].children[1]).push(
                            f[current_index as int].children[0],
                        ));
                    }
                    let before = old(self).remaining();
                    assert(before == preorder(f, current_index as int) + pending(f, rest));
                    assert(before[0] == current_index);
                    assert(before.skip(1) =~= pending(f, self.stack@));
                }
                Some(current_node)
            },
        }
    }
}

impl<'a> PreOrderLeafIter<'a> {
    /// The tree that is traversed.
    pub closed spec fn tree(&self) -> HcTree {
        self.inner.tree()
    }

    /// The leaves still to come, in order.
    pub closed spec fn remaining(&self) -> Seq<usize> {
        leaves_among(self.inner.tree()@, self.inner.remaining())
    }

    /// The traversal's invariant.
    pub closed spec fn wf(&self) -> bool {
        self.inner.wf()
    }

    /// The next leaf of the traversal, `None` when it is over.
    pub fn next(&mut self) -> (node: Option<&'a Node>)
        requires
            old(self).wf(),
        ensures
            final(self).wf(),
            final(self).tree() == old(self).tree(),
            match node {
                Some(node) => {
                    &&& old(self).remaining().len() > 0
                    &&& old(self).remaining()[0] < old(self).tree().nodes.len()
                    &&& *node == old(self).tree().nodes[old(self).remaining()[0] as int]
                    &&& final(self).remaining() == old(self).remaining().skip(1)
                },
                None => old(self).remaining().len() == 0 && final(self).remaining().len() == 0,
            },
    {
        loop
            invariant
                self.inner.wf(),
                self.inner.tree() == old(self).inner.tree(),
                leaves_among(self.inner.tree()@, self.inner.remaining()) == old(self).remaining(),
            decreases self.inner.remaining().len(),
        {
            let ghost before = self.inner.remaining();
            match self.inner.next() {
                None => {
                    return None;
                },
                Some(node) => {
                    proof {
                        let f = self.inner.tree()@;
                        assert(f[before[0] as int] == node@);
                        assert(leaves_among(f, before.skip(1)) == leaves_among(
                            f,
                            self.inner.remaining(),
                        ));
                    }
                    if node.children.is_empty() {
                        proof {
                            let f = self.inner.tree()@;
                            let rest = leaves_among(f, before.skip(1));
                            assert(old(self).remaining() == seq![before[0]] + rest);
                            assert(old(self).remaining().skip(1) =~= rest);
                        }
                        return Some(node);
                    }
                },
            }
        }
    }
}

} // verus!
