//! The merge forest as a mathematical value: what it means for it to be
//! well formed, what a merge and a ladderization make of it, in which order
//! its nodes are visited, and the lemmas that connect these.
use vstd::prelude::*;

verus! {

/// The mathematical content of a node of the arena.
pub struct NodeView {
    /// Position of the node in the arena.
    pub id: usize,
    /// The node that this one was merged into, if any.
    pub parent: Option<usize>,
    /// Empty for a leaf, two ids otherwise, in display order.
    pub children: Seq<usize>,
    /// The input items that the subtree covers.
    pub indices: Seq<usize>,
}

/// Node `k` has no children.
pub open spec fn is_leaf(f: Seq<NodeView>, k: int) -> bool {
    f[k].children.len() == 0
}

/// Node `k` has not been merged into another node.
pub open spec fn is_parentless(f: Seq<NodeView>, k: int) -> bool {
    f[k].parent is None
}

/// No item occurs in both sequences.
pub open spec fn disjoint(a: Seq<usize>, b: Seq<usize>) -> bool {
    forall|x: usize| !(#[trigger] a.contains(x) && b.contains(x))
}

/// `whole` holds the items of `a` and of `b`, each once, where `a` and `b`
/// share none.
pub open spec fn splits_into(whole: Seq<usize>, a: Seq<usize>, b: Seq<usize>) -> bool {
    &&& whole.len() == a.len() + b.len()
    &&& forall|x: usize| #[trigger] whole.contains(x) <==> (a.contains(x) || b.contains(x))
    &&& disjoint(a, b)
}

/// Parentless node `k` covers item `x`.
pub open spec fn owns(f: Seq<NodeView>, k: int, x: int) -> bool {
    0 <= k < f.len() && is_parentless(f, k) && f[k].indices.contains(x as usize)
}

/// What holds of every single node of a well-formed forest.
pub open spec fn node_wf(f: Seq<NodeView>, k: int) -> bool {
    let n = f[k];
    &&& n.id == k
    &&& n.indices.no_duplicates()
    &&& forall|i: int|
        0 <= i < n.indices.len() ==> (#[trigger] n.indices[i]) < f.len() && is_leaf(
            f,
            n.indices[i] as int,
        )
    &&& match n.parent {
        Some(p) => k < p < f.len() && f[p as int].children.contains(k as usize),
        None => true,
    }
    &&& if n.children.len() == 0 {
        n.indices == seq![k as usize]
    } else {
        &&& n.children.len() == 2
        &&& n.children[0] < k
        &&& n.children[1] < k
        &&& n.children[0] != n.children[1]
        &&& f[n.children[0] as int].parent == Some(k as usize)
        &&& f[n.children[1] as int].parent == Some(k as usize)
        &&& splits_into(
            n.indices,
            f[n.children[0] as int].indices,
            f[n.children[1] as int].indices,
        )
    }
}

/// The invariant of the arena: ids are positions, children precede their
/// parent, parent and child links agree, every node covers exactly the leaves
/// below it, and the parentless nodes partition the leaves between them.
pub open spec fn forest_wf(f: Seq<NodeView>) -> bool {
    &&& forall|k: int| 0 <= k < f.len() ==> #[trigger] node_wf(f, k)
    &&& forall|a: int, b: int|
        0 <= a < f.len() && 0 <= b < f.len() && a != b && #[trigger] is_parentless(f, a)
            && #[trigger] is_parentless(f, b) ==> disjoint(f[a].indices, f[b].indices)
    &&& forall|x: int|
        0 <= x < f.len() && #[trigger] is_leaf(f, x) ==> exists|k: int| #[trigger] owns(f, k, x)
}

/// The forest of `n` unmerged leaves.
pub open spec fn leaf_forest(n: nat) -> Seq<NodeView> {
    Seq::new(
        n,
        |k: int|
            NodeView {
                id: k as usize,
                parent: None,
                children: Seq::empty(),
                indices: seq![k as usize],
            },
    )
}

/// The forest after the parentless nodes `a` and `b` were merged: both get
/// the new node as their parent, and the new node, appended last, has them as
/// its children, in this order, and covers what they cover.
pub open spec fn merged(f: Seq<NodeView>, a: int, b: int) -> Seq<NodeView> {
    Seq::new(
        f.len() + 1,
        |k: int|
            if k == f.len() {
                NodeView {
                    id: f.len() as usize,
                    parent: None,
                    children: seq![a as usize, b as usize],
                    indices: f[a].indices + f[b].indices,
                }
            } else if k == a || k == b {
                NodeView {
                    id: f[k].id,
                    parent: Some(f.len() as usize),
                    children: f[k].children,
                    indices: f[k].indices,
                }
            } else {
                f[k]
            },
    )
}

/// Nodes `a` and `b` can be merged: they are two different parentless nodes.
pub open spec fn mergeable(f: Seq<NodeView>, a: int, b: int) -> bool {
    &&& 0 <= a < f.len()
    &&& 0 <= b < f.len()
    &&& a != b
    &&& is_parentless(f, a)
    &&& is_parentless(f, b)
}

/// Number of leaves below node `k`, itself included when it is a leaf.
pub open spec fn subtree_size(f: Seq<NodeView>, k: int) -> nat
    decreases k,
{
    if 0 <= k < f.len() && f[k].children.len() == 2 && f[k].children[0] < k && f[k].children[1]
        < k {
        subtree_size(f, f[k].children[0] as int) + subtree_size(f, f[k].children[1] as int)
    } else {
        1
    }
}

/// Number of nodes among the first `n` that have no parent.
pub open spec fn parentless_upto(f: Seq<NodeView>, n: int) -> nat
    decreases n,
{
    if n <= 0 {
        0
    } else {
        parentless_upto(f, n - 1) + if is_parentless(f, n - 1) {
            1nat
        } else {
            0nat
        }
    }
}

/// Number of nodes that have no parent.
pub open spec fn parentless_count(f: Seq<NodeView>) -> nat {
    parentless_upto(f, f.len() as int)
}

/// The nodes of the subtree of `k`, a node before its children and the
/// first child's subtree before the second's.
pub open spec fn preorder(f: Seq<NodeView>, k: int) -> Seq<usize>
    decreases k,
{
    if 0 <= k < f.len() {
        if f[k].children.len() == 2 && f[k].children[0] < k && f[k].children[1] < k {
            seq![k as usize] + preorder(f, f[k].children[0] as int) + preorder(
                f,
                f[k].children[1] as int,
            )
        } else {
            seq![k as usize]
        }
    } else {
        Seq::empty()
    }
}

/// What a traversal with the given stack still has to visit: the subtree of
/// the top entry first.
pub open spec fn pending(f: Seq<NodeView>, stack: Seq<usize>) -> Seq<usize>
    decreases stack.len(),
{
    if stack.len() == 0 {
        Seq::empty()
    } else {
        preorder(f, stack.last() as int) + pending(f, stack.drop_last())
    }
}

/// The leaves among the nodes `s`, in the same order.
pub open spec fn leaves_among(f: Seq<NodeView>, s: Seq<usize>) -> Seq<usize>
    decreases s.len(),
{
    if s.len() == 0 {
        Seq::empty()
    } else if is_leaf(f, s[0] as int) {
        seq![s[0]] + leaves_among(f, s.skip(1))
    } else {
        leaves_among(f, s.skip(1))
    }
}

/// The whole traversal: empty for an empty arena, else the subtree of the
/// last node.
pub open spec fn preorder_of(f: Seq<NodeView>) -> Seq<usize> {
    if f.len() == 0 {
        Seq::empty()
    } else {
        preorder(f, f.len() - 1)
    }
}

/// The leaves in the order in which the traversal meets them.
pub open spec fn leaf_order(f: Seq<NodeView>) -> Seq<usize> {
    leaves_among(f, preorder_of(f))
}

/// Node `k` lies in the subtree of node `r`: `r` is reached from `k` by
/// parent links.
pub open spec fn in_subtree(f: Seq<NodeView>, r: int, k: int) -> bool
    decreases f.len() - k,
{
    if k == r {
        true
    } else if 0 <= k < f.len() {
        match f[k].parent {
            Some(p) => k < p < f.len() && in_subtree(f, r, p as int),
            None => false,
        }
    } else {
        false
    }
}

/// The children of node `k` in display order: the child with more leaves
/// below it first, and the stored order where both have as many.
pub open spec fn ladder_children(f: Seq<NodeView>, k: int) -> Seq<usize> {
    let c = f[k].children;
    if c.len() == 2 && subtree_size(f, c[0] as int) < subtree_size(f, c[1] as int) {
        seq![c[1], c[0]]
    } else {
        c
    }
}

/// The forest with the children of every node of the subtree of `r` put in
/// display order; nothing else changes.
pub open spec fn ladderized_below(f: Seq<NodeView>, r: int) -> Seq<NodeView> {
    Seq::new(
        f.len(),
        |k: int|
            if in_subtree(f, r, k) {
                NodeView {
                    id: f[k].id,
                    parent: f[k].parent,
                    children: ladder_children(f, k),
                    indices: f[k].indices,
                }
            } else {
                f[k]
            },
    )
}

/// The forest ladderized from its last node down.
pub open spec fn ladderized(f: Seq<NodeView>) -> Seq<NodeView> {
    if f.len() == 0 {
        f
    } else {
        ladderized_below(f, f.len() - 1)
    }
}

/// `g` is `f` with the children of some nodes exchanged.
pub open spec fn same_shape(f: Seq<NodeView>, g: Seq<NodeView>) -> bool {
    &&& g.len() == f.len()
    &&& forall|k: int|
        0 <= k < f.len() ==> {
            &&& (#[trigger] g[k]).id == f[k].id
            &&& g[k].parent == f[k].parent
            &&& g[k].indices == f[k].indices
            &&& (g[k].children == f[k].children || (f[k].children.len() == 2 && g[k].children
                == seq![f[k].children[1], f[k].children[0]]))
        }
}

/// `order` holds each of `0, ..., n - 1` once and nothing else.
pub open spec fn is_permutation(order: Seq<usize>, n: nat) -> bool {
    &&& order.len() == n
    &&& order.no_duplicates()
    &&& forall|x: usize| #[trigger] order.contains(x) <==> x < n
}

/// A well-formed forest over the leaves `0, ..., n - 1`: the leaves are the
/// first `n` nodes, and every merge so far has added one node and taken one
/// from the parentless ones.
pub open spec fn forest_over(f: Seq<NodeView>, n: nat) -> bool {
    &&& forest_wf(f)
    &&& forall|k: int| 0 <= k < f.len() ==> (#[trigger] is_leaf(f, k) <==> k < n)
    &&& f.len() + parentless_count(f) == 2 * n
    &&& n <= f.len()
}

/// In a well-formed forest a node covers as many items as it has leaves below it.
pub proof fn lemma_subtree_size_is_cover(f: Seq<NodeView>, k: int)
    requires
        forest_wf(f),
        0 <= k < f.len(),
    ensures
        subtree_size(f, k) == f[k].indices.len(),
    decreases k,
{
    assert(node_wf(f, k));
    if f[k].children.len() == 2 {
        let c0 = f[k].children[0] as int;
        let c1 = f[k].children[1] as int;
        lemma_subtree_size_is_cover(f, c0);
        lemma_subtree_size_is_cover(f, c1);
    }
}

/// A forest of unmerged leaves is well formed.
pub proof fn lemma_leaf_forest_wf(n: nat)
    requires
        n <= usize::MAX,
    ensures
        forest_wf(leaf_forest(n)),
{
    let f = leaf_forest(n);
    assert forall|k: int| 0 <= k < f.len() implies #[trigger] node_wf(f, k) by {
        assert(f[k].indices =~= seq![k as usize]);
    }
    assert forall|a: int, b: int|
        0 <= a < f.len() && 0 <= b < f.len() && a != b && #[trigger] is_parentless(f, a)
            && #[trigger] is_parentless(f, b) implies disjoint(f[a].indices, f[b].indices) by {
        assert forall|x: usize| !(#[trigger] f[a].indices.contains(x) && f[b].indices.contains(
            x,
        )) by {
            if f[a].indices.contains(x) && f[b].indices.contains(x) {
                assert(x == a as usize);
                assert(x == b as usize);
            }
        }
    }
    assert forall|x: int| 0 <= x < f.len() && #[trigger] is_leaf(f, x) implies exists|k: int|
        #[trigger] owns(f, k, x) by {
        assert(f[x].indices[0] == x as usize);
        assert(owns(f, x, x));
    }
}

/// An item is in a concatenation when it is in one of the parts.
pub proof fn lemma_concat_contains(a: Seq<usize>, b: Seq<usize>)
    ensures
        forall|x: usize| #[trigger] (a + b).contains(x) <==> (a.contains(x) || b.contains(x)),
{
    assert forall|x: usize| #[trigger] (a + b).contains(x) <==> (a.contains(x) || b.contains(
        x,
    )) by {
        if (a + b).contains(x) {
            let i = choose|i: int| 0 <= i < (a + b).len() && (a + b)[i] == x;
            if i < a.len() {
                assert(a[i] == x);
            } else {
                assert(b[i - a.len()] == x);
            }
        }
        if a.contains(x) {
            let i = choose|i: int| 0 <= i < a.len() && a[i] == x;
            assert((a + b)[i] == x);
        }
        if b.contains(x) {
            let i = choose|i: int| 0 <= i < b.len() && b[i] == x;
            assert((a + b)[i + a.len()] == x);
        }
    }
}

/// Merging keeps the forest well formed.
pub proof fn lemma_merged_wf(f: Seq<NodeView>, a: int, b: int)
    requires
        forest_wf(f),
        mergeable(f, a, b),
        f.len() < usize::MAX,
    ensures
        forest_wf(merged(f, a, b)),
{
    let g = merged(f, a, b);
    let n = f.len() as int;
    let ia = f[a].indices;
    let ib = f[b].indices;
    assert(node_wf(f, a));
    assert(node_wf(f, b));
    assert(disjoint(ia, ib));
    lemma_concat_contains(ia, ib);
    assert((ia + ib).no_duplicates()) by {
        assert forall|i: int, j: int| 0 <= i < ia.len() && 0 <= j < ib.len() implies ia[i]
            != ib[j] by {
            assert(ia.contains(ia[i]));
            assert(ib.contains(ib[j]));
        }
        vstd::seq_lib::lemma_no_dup_in_concat(ia, ib);
    }
    assert forall|k: int| 0 <= k < g.len() implies #[trigger] node_wf(g, k) by {
        if k == n {
            assert(g[a].parent == Some(n as usize));
            assert(g[b].parent == Some(n as usize));
            assert forall|i: int| 0 <= i < g[k].indices.len() implies (#[trigger] g[k].indices[i])
                < g.len() && is_leaf(g, g[k].indices[i] as int) by {
                if i < ia.len() {
                    assert(g[k].indices[i] == ia[i]);
                } else {
                    assert(g[k].indices[i] == ib[i - ia.len()]);
                }
            }
            assert(splits_into(g[k].indices, g[a].indices, g[b].indices));
        } else {
            assert(node_wf(f, k));
            match f[k].parent {
                Some(p) => {
                    assert(g[p as int].children == f[p as int].children);
                },
                None => {},
            }
            if k == a || k == b {
                assert(g[n].children[0] == a as usize);
                assert(g[n].children[1] == b as usize);
                assert(g[n].children.contains(k as usize));
            }
            if f[k].children.len() != 0 {
                let c0 = f[k].children[0] as int;
                let c1 = f[k].children[1] as int;
                assert(g[c0] == f[c0]);
                assert(g[c1] == f[c1]);
            }
        }
    }
    assert forall|x: int, y: int|
        0 <= x < g.len() && 0 <= y < g.len() && x != y && #[trigger] is_parentless(g, x)
            && #[trigger] is_parentless(g, y) implies disjoint(g[x].indices, g[y].indices) by {
        if x == n {
            assert(is_parentless(f, y) && is_parentless(f, a) && is_parentless(f, b));
            assert(disjoint(f[y].indices, ia));
            assert(disjoint(f[y].indices, ib));
        } else if y == n {
            assert(is_parentless(f, x) && is_parentless(f, a) && is_parentless(f, b));
            assert(disjoint(f[x].indices, ia));
            assert(disjoint(f[x].indices, ib));
        } else {
            assert(is_parentless(f, x) && is_parentless(f, y));
        }
    }
    assert forall|x: int| 0 <= x < g.len() && #[trigger] is_leaf(g, x) implies exists|k: int|
        #[trigger] owns(g, k, x) by {
        assert(x != n);
        assert(is_leaf(f, x));
        let k = choose|k: int| #[trigger] owns(f, k, x);
        if k == a || k == b {
            assert(owns(g, n, x));
        } else {
            assert(owns(g, k, x));
        }
    }
}

/// Where two forests agree on which of their first `n` nodes are
/// parentless, but for node `a`, which is parentless in the first only, the
/// second has one parentless node fewer among them.
proof fn lemma_parentless_upto_change(f: Seq<NodeView>, g: Seq<NodeView>, n: int, a: int)
    requires
        0 <= a,
        is_parentless(f, a),
        !is_parentless(g, a),
        forall|k: int| 0 <= k < n && k != a ==> is_parentless(g, k) == is_parentless(f, k),
    ensures
        parentless_upto(g, n) + (if a < n {
            1nat
        } else {
            0nat
        }) == parentless_upto(f, n),
    decreases n,
{
    if n > 0 {
        lemma_parentless_upto_change(f, g, n - 1, a);
    }
}

/// A merge takes two nodes from the parentless ones and adds one.
pub proof fn lemma_merged_count(f: Seq<NodeView>, a: int, b: int)
    requires
        mergeable(f, a, b),
    ensures
        parentless_count(merged(f, a, b)) + 1 == parentless_count(f),
{
    let g = merged(f, a, b);
    let n = f.len() as int;
    let h = f.update(a, g[a]);
    lemma_parentless_upto_change(f, h, n, a);
    lemma_parentless_upto_change(h, g, n, b);
    assert(is_parentless(g, n));
}

/// A merge keeps a forest over `n` leaves what it is.
pub proof fn lemma_merged_over(f: Seq<NodeView>, n: nat, a: int, b: int)
    requires
        forest_over(f, n),
        mergeable(f, a, b),
        f.len() < usize::MAX,
    ensures
        forest_over(merged(f, a, b), n),
{
    lemma_merged_wf(f, a, b);
    lemma_merged_count(f, a, b);
    let g = merged(f, a, b);
    assert forall|k: int| 0 <= k < g.len() implies (#[trigger] is_leaf(g, k) <==> k < n) by {
        if k < f.len() {
            assert(is_leaf(f, k) <==> k < n);
        }
    }
}

/// A forest of unmerged leaves is a forest over them.
pub proof fn lemma_leaf_forest_over(n: nat)
    requires
        n <= usize::MAX,
    ensures
        forest_over(leaf_forest(n), n),
{
    lemma_leaf_forest_wf(n);
    lemma_leaf_forest_count(n, n as int);
}

proof fn lemma_leaf_forest_count(n: nat, k: int)
    requires
        0 <= k <= n,
    ensures
        parentless_upto(leaf_forest(n), k) == k,
    decreases k,
{
    if k > 0 {
        lemma_leaf_forest_count(n, k - 1);
    }
}

/// Two different parentless nodes are counted as two.
proof fn lemma_two_parentless(f: Seq<NodeView>, a: int, b: int, n: int)
    requires
        0 <= a < b < n,
        is_parentless(f, a),
        is_parentless(f, b),
    ensures
        parentless_upto(f, n) >= 2,
    decreases n,
{
    if n - 1 > b {
        lemma_two_parentless(f, a, b, n - 1);
    } else {
        lemma_one_parentless(f, a, b);
    }
}

proof fn lemma_one_parentless(f: Seq<NodeView>, a: int, n: int)
    requires
        0 <= a < n,
        is_parentless(f, a),
    ensures
        parentless_upto(f, n) >= 1,
    decreases n,
{
    if n - 1 > a {
        lemma_one_parentless(f, a, n - 1);
    }
}

/// A sequence without duplicates that holds exactly the numbers below `n`
/// has length `n`.
pub proof fn lemma_permutation_len(s: Seq<usize>, n: nat)
    requires
        n <= usize::MAX,
        s.no_duplicates(),
        forall|x: usize| #[trigger] s.contains(x) <==> x < n,
    ensures
        s.len() == n,
    decreases n,
{
    if n == 0 {
        if s.len() > 0 {
            assert(s.contains(s[0]));
        }
    } else {
        let last = (n - 1) as usize;
        assert(s.contains(last));
        let i = choose|i: int| 0 <= i < s.len() && s[i] == last;
        let rest = s.remove(i);
        assert(rest.no_duplicates()) by {
            assert forall|p: int, q: int| 0 <= p < rest.len() && 0 <= q < rest.len() && p
                != q implies rest[p] != rest[q] by {
                let sp = if p < i {
                    p
                } else {
                    p + 1
                };
                let sq = if q < i {
                    q
                } else {
                    q + 1
                };
                assert(rest[p] == s[sp]);
                assert(rest[q] == s[sq]);
            }
        }
        assert forall|x: usize| #[trigger] rest.contains(x) <==> x < (n - 1) as nat by {
            if rest.contains(x) {
                let p = choose|p: int| 0 <= p < rest.len() && rest[p] == x;
                let sp = if p < i {
                    p
                } else {
                    p + 1
                };
                assert(s[sp] == x);
                assert(s.contains(x));
                assert(sp != i);
            }
            if x < n - 1 {
                assert(s.contains(x));
                let q = choose|q: int| 0 <= q < s.len() && s[q] == x;
                assert(q != i);
                if q < i {
                    assert(rest[q] == x);
                } else {
                    assert(rest[q - 1] == x);
                }
            }
        }
        lemma_permutation_len(rest, (n - 1) as nat);
    }
}

/// The last node of a forest over `n >= 1` leaves with a single parentless
/// node is that node, and it covers every leaf once.
pub proof fn lemma_root_covers(f: Seq<NodeView>, n: nat)
    requires
        forest_over(f, n),
        parentless_count(f) == 1,
    ensures
        1 <= n <= usize::MAX,
        f.len() == 2 * n - 1,
        is_parentless(f, f.len() - 1),
        forall|k: int| 0 <= k < f.len() - 1 ==> !is_parentless(f, k),
        is_permutation(f[f.len() - 1].indices, n),
{
    let r = f.len() - 1;
    assert(f.len() > 0) by {
        if f.len() == 0 {
            assert(parentless_upto(f, 0) == 0);
        }
    }
    assert(node_wf(f, r));
    assert(is_parentless(f, r));
    assert forall|k: int| 0 <= k < r implies !is_parentless(f, k) by {
        if is_parentless(f, k) {
            lemma_two_parentless(f, k, r, f.len() as int);
        }
    }
    let s = f[r].indices;
    assert forall|x: usize| #[trigger] s.contains(x) <==> x < n by {
        if s.contains(x) {
            let i = choose|i: int| 0 <= i < s.len() && s[i] == x;
            assert(is_leaf(f, s[i] as int));
        }
        if x < n {
            assert(is_leaf(f, x as int));
            let k = choose|k: int| #[trigger] owns(f, k, x as int);
            assert(k == r);
        }
    }
    lemma_permutation_len(s, n);
}

/// The last node of a well-formed forest has no parent.
pub proof fn lemma_last_parentless(f: Seq<NodeView>)
    requires
        forest_wf(f),
        f.len() > 0,
    ensures
        is_parentless(f, f.len() - 1),
        parentless_count(f) >= 1,
{
    assert(node_wf(f, f.len() - 1));
    lemma_one_parentless(f, f.len() - 1, f.len() as int);
}

/// The leaves of a finished tree over `n` leaves, ladderized and met by a
/// traversal, are `0, ..., n - 1` in some order.
pub proof fn lemma_display_order(f: Seq<NodeView>, n: nat)
    requires
        forest_over(f, n),
        n == 0 || parentless_count(f) == 1,
    ensures
        is_permutation(leaf_order(ladderized(f)), n),
{
    let g = ladderized(f);
    assert(forest_wf(g) && same_shape(f, g)) by {
        lemma_ladderize_idempotent(f);
    }
    if f.len() == 0 {
        assert(parentless_upto(f, 0) == 0);
        assert(leaf_order(g) =~= Seq::<usize>::empty());
    } else {
        let r = f.len() - 1;
        let order = leaves_among(g, preorder(g, r));
        assert(leaf_order(g) == order);
        assert(is_permutation(f[r].indices, n) && n <= usize::MAX) by {
            lemma_last_parentless(f);
            lemma_root_covers(f, n);
        }
        assert(g[r].indices == f[r].indices);
        assert(order.no_duplicates() && (forall|x: usize| #[trigger]
            order.contains(x) <==> g[r].indices.contains(x))) by {
            lemma_subtree_leaves(g, r);
        }
        assert(order.len() == n) by {
            lemma_permutation_len(order, n);
        }
    }
}

/// In a well-formed forest the two children of a node cover different
/// items.
pub proof fn lemma_siblings_disjoint(f: Seq<NodeView>, k: int)
    requires
        forest_wf(f),
        0 <= k < f.len(),
        !is_leaf(f, k),
    ensures
        f[k].children.len() == 2,
        disjoint(f[f[k].children[0] as int].indices, f[f[k].children[1] as int].indices),
{
    assert(node_wf(f, k));
}

/// The leaves of a concatenation are the leaves of its parts.
pub proof fn lemma_leaves_among_concat(f: Seq<NodeView>, a: Seq<usize>, b: Seq<usize>)
    ensures
        leaves_among(f, a + b) == leaves_among(f, a) + leaves_among(f, b),
    decreases a.len(),
{
    if a.len() == 0 {
        assert(a + b =~= b);
        assert(leaves_among(f, a) + leaves_among(f, b) =~= leaves_among(f, b));
    } else {
        lemma_leaves_among_concat(f, a.skip(1), b);
        assert((a + b).skip(1) =~= a.skip(1) + b);
        assert((a + b)[0] == a[0]);
        if is_leaf(f, a[0] as int) {
            assert(seq![a[0]] + (leaves_among(f, a.skip(1)) + leaves_among(f, b)) =~= (seq![a[0]]
                + leaves_among(f, a.skip(1))) + leaves_among(f, b));
        }
    }
}

/// The leaves that a traversal of a subtree meets are the items that its
/// top node covers, each met once.
pub proof fn lemma_subtree_leaves(f: Seq<NodeView>, k: int)
    requires
        forest_wf(f),
        0 <= k < f.len(),
    ensures
        leaves_among(f, preorder(f, k)).no_duplicates(),
        forall|x: usize| #[trigger]
            leaves_among(f, preorder(f, k)).contains(x) <==> f[k].indices.contains(x),
    decreases k,
{
    assert(node_wf(f, k));
    let me = seq![k as usize];
    let found = leaves_among(f, preorder(f, k));
    assert(me.skip(1) =~= Seq::<usize>::empty());
    assert(leaves_among(f, me.skip(1)) =~= Seq::<usize>::empty());
    if f[k].children.len() == 0 {
        assert(preorder(f, k) == me);
        assert(found =~= me);
        assert(f[k].indices =~= me);
    } else {
        let c0 = f[k].children[0] as int;
        let c1 = f[k].children[1] as int;
        let below_first = preorder(f, c0);
        let below_second = preorder(f, c1);
        lemma_subtree_leaves(f, c0);
        lemma_subtree_leaves(f, c1);
        let first_leaves = leaves_among(f, below_first);
        let second_leaves = leaves_among(f, below_second);
        lemma_leaves_among_concat(f, me, below_first);
        lemma_leaves_among_concat(f, me + below_first, below_second);
        assert(leaves_among(f, me) =~= Seq::<usize>::empty());
        assert(found =~= first_leaves + second_leaves);
        lemma_concat_contains(first_leaves, second_leaves);
        assert forall|i: int, j: int|
            0 <= i < first_leaves.len() && 0 <= j < second_leaves.len() implies first_leaves[i]
            != second_leaves[j] by {
            assert(first_leaves.contains(first_leaves[i]));
            assert(second_leaves.contains(second_leaves[j]));
            assert(f[c0].indices.contains(first_leaves[i]));
            assert(f[c1].indices.contains(second_leaves[j]));
        }
        vstd::seq_lib::lemma_no_dup_in_concat(first_leaves, second_leaves);
    }
}

/// Exchanging children does not change how many leaves lie below a node.
pub proof fn lemma_same_shape_sizes(f: Seq<NodeView>, g: Seq<NodeView>, k: int)
    requires
        same_shape(f, g),
    ensures
        subtree_size(g, k) == subtree_size(f, k),
    decreases k,
{
    if 0 <= k < f.len() && f[k].children.len() == 2 && f[k].children[0] < k && f[k].children[1]
        < k {
        lemma_same_shape_sizes(f, g, f[k].children[0] as int);
        lemma_same_shape_sizes(f, g, f[k].children[1] as int);
        assert(g[k].children.len() == 2);
    } else if 0 <= k < f.len() {
        assert(g[k].children == f[k].children || (f[k].children.len() == 2 && g[k].children
            == seq![f[k].children[1], f[k].children[0]]));
    }
}

/// Exchanging children does not change which subtree a node lies in.
pub proof fn lemma_same_shape_subtree(f: Seq<NodeView>, g: Seq<NodeView>, r: int, k: int)
    requires
        same_shape(f, g),
    ensures
        in_subtree(g, r, k) == in_subtree(f, r, k),
    decreases f.len() - k,
{
    if k != r && 0 <= k < f.len() {
        match f[k].parent {
            Some(p) => {
                if k < p < f.len() {
                    lemma_same_shape_subtree(f, g, r, p as int);
                }
            },
            None => {},
        }
    }
}

/// Exchanging children keeps the forest well formed.
pub proof fn lemma_same_shape_wf(f: Seq<NodeView>, g: Seq<NodeView>)
    requires
        forest_wf(f),
        same_shape(f, g),
    ensures
        forest_wf(g),
{
    assert forall|k: int| 0 <= k < g.len() implies #[trigger] node_wf(g, k) by {
        assert(node_wf(f, k));
        assert(g[k].id == f[k].id);
        assert forall|i: int| 0 <= i < g[k].indices.len() implies (#[trigger] g[k].indices[i])
            < g.len() && is_leaf(g, g[k].indices[i] as int) by {
            let x = f[k].indices[i] as int;
            assert(is_leaf(f, x));
            assert(g[x].id == f[x].id);
        }
        match f[k].parent {
            Some(p) => {
                let p = p as int;
                assert(g[p].id == f[p].id);
                let i = choose|i: int|
                    0 <= i < f[p].children.len() && f[p].children[i] == k as usize;
                assert(node_wf(f, p));
                if g[p].children == f[p].children {
                } else {
                    assert(g[p].children[1 - i] == k as usize);
                }
            },
            None => {},
        }
        if f[k].children.len() != 0 {
            let c0 = f[k].children[0] as int;
            let c1 = f[k].children[1] as int;
            assert(g[c0].id == f[c0].id);
            assert(g[c1].id == f[c1].id);
            let a = f[c0].indices;
            let b = f[c1].indices;
            assert(disjoint(b, a)) by {
                assert forall|x: usize| !(#[trigger] b.contains(x) && a.contains(x)) by {
                    if a.contains(x) && b.contains(x) {
                        assert(disjoint(a, b));
                    }
                }
            }
            assert(splits_into(f[k].indices, b, a));
        }
    }
    assert forall|x: int, y: int|
        0 <= x < g.len() && 0 <= y < g.len() && x != y && #[trigger] is_parentless(g, x)
            && #[trigger] is_parentless(g, y) implies disjoint(g[x].indices, g[y].indices) by {
        assert(g[x].id == f[x].id);
        assert(g[y].id == f[y].id);
        assert(is_parentless(f, x) && is_parentless(f, y));
    }
    assert forall|x: int| 0 <= x < g.len() && #[trigger] is_leaf(g, x) implies exists|k: int|
        #[trigger] owns(g, k, x) by {
        assert(g[x].id == f[x].id);
        assert(is_leaf(f, x));
        let k = choose|k: int| #[trigger] owns(f, k, x);
        assert(g[k].id == f[k].id);
        assert(owns(g, k, x));
    }
}

/// The subtree of an internal node is the node itself and the subtrees of
/// its two children.
pub proof fn lemma_subtree_of_children(f: Seq<NodeView>, r: int, k: int)
    requires
        forest_wf(f),
        0 <= r < f.len(),
        f[r].children.len() == 2,
    ensures
        in_subtree(f, r, k) <==> (k == r || in_subtree(f, f[r].children[0] as int, k)
            || in_subtree(f, f[r].children[1] as int, k)),
    decreases f.len() - k,
{
    let c0 = f[r].children[0] as int;
    let c1 = f[r].children[1] as int;
    assert(node_wf(f, r));
    if k != r && 0 <= k < f.len() {
        assert(node_wf(f, k));
        match f[k].parent {
            Some(p) => {
                let p = p as int;
                lemma_subtree_of_children(f, r, p);
                if p == r {
                    let i = choose|i: int|
                        0 <= i < f[p].children.len() && f[p].children[i] == k as usize;
                    assert(k == c0 || k == c1);
                }
                assert(node_wf(f, c0));
                assert(node_wf(f, c1));
            },
            None => {
                assert(k != c0 && k != c1);
            },
        }
    }
}

/// Nothing but a leaf itself lies in the subtree of a leaf.
pub proof fn lemma_subtree_of_leaf(f: Seq<NodeView>, r: int, k: int)
    requires
        forest_wf(f),
        0 <= r < f.len(),
        f[r].children.len() == 0,
    ensures
        in_subtree(f, r, k) <==> k == r,
    decreases f.len() - k,
{
    if k != r && 0 <= k < f.len() {
        assert(node_wf(f, k));
        match f[k].parent {
            Some(p) => {
                lemma_subtree_of_leaf(f, r, p as int);
            },
            None => {},
        }
    }
}

/// Exchanging children twice is exchanging them once or not at all.
pub proof fn lemma_same_shape_trans(f: Seq<NodeView>, g: Seq<NodeView>, h: Seq<NodeView>)
    requires
        same_shape(f, g),
        same_shape(g, h),
    ensures
        same_shape(f, h),
{
    assert forall|k: int| 0 <= k < f.len() implies {
        &&& (#[trigger] h[k]).id == f[k].id
        &&& h[k].parent == f[k].parent
        &&& h[k].indices == f[k].indices
        &&& (h[k].children == f[k].children || (f[k].children.len() == 2 && h[k].children
            == seq![f[k].children[1], f[k].children[0]]))
    } by {
        assert(g[k].id == f[k].id);
        assert(h[k].id == g[k].id);
        if h[k].children != g[k].children && g[k].children != f[k].children {
            assert(h[k].children =~= f[k].children);
        }
    }
}

/// Once the children of a node are in display order, ordering them again
/// changes nothing.
pub proof fn lemma_ladder_children_stable(f: Seq<NodeView>, g: Seq<NodeView>, k: int)
    requires
        same_shape(f, g),
        0 <= k < f.len(),
        g[k].children == ladder_children(f, k) || g[k].children == f[k].children,
    ensures
        ladder_children(g, k) == ladder_children(f, k),
{
    if f[k].children.len() == 2 {
        lemma_same_shape_sizes(f, g, f[k].children[0] as int);
        lemma_same_shape_sizes(f, g, f[k].children[1] as int);
        assert(ladder_children(g, k) =~= ladder_children(f, k));
    }
}

/// Ladderizing a second time changes nothing.
pub proof fn lemma_ladderize_idempotent(f: Seq<NodeView>)
    requires
        forest_wf(f),
    ensures
        same_shape(f, ladderized(f)),
        forest_wf(ladderized(f)),
        ladderized(ladderized(f)) == ladderized(f),
{
    let g = ladderized(f);
    if f.len() > 0 {
        let r = f.len() - 1;
        assert(same_shape(f, g));
        lemma_same_shape_wf(f, g);
        let h = ladderized(g);
        assert forall|k: int| 0 <= k < g.len() implies h[k] == g[k] by {
            lemma_same_shape_subtree(f, g, r, k);
            lemma_ladder_children_stable(f, g, k);
        }
        assert(h =~= g);
    }
}

/// What ladderizing does to a node below the last one: the child with more
/// leaves below it comes first; two children with as many leaves keep their
/// order; and the two children are the same two as before.
pub proof fn lemma_ladderized_order(f: Seq<NodeView>, k: int)
    requires
        forest_wf(f),
        0 <= k < f.len(),
        in_subtree(f, f.len() - 1, k),
        !is_leaf(f, k),
    ensures
        ({
            let g = ladderized(f);
            let before = f[k].children;
            let after = g[k].children;
            &&& after.len() == 2
            &&& subtree_size(g, after[0] as int) >= subtree_size(g, after[1] as int)
            &&& subtree_size(f, before[0] as int) >= subtree_size(f, before[1] as int) ==> after
                == before
            &&& subtree_size(f, before[0] as int) < subtree_size(f, before[1] as int) ==> after
                == seq![before[1], before[0]]
        }),
{
    let g = ladderized(f);
    assert(node_wf(f, k));
    assert(same_shape(f, g));
    lemma_same_shape_sizes(f, g, f[k].children[0] as int);
    lemma_same_shape_sizes(f, g, f[k].children[1] as int);
}

/// Pushing the two children of a node, the second first, leaves their
/// subtrees to visit, the first child's first.
pub proof fn lemma_pending_push_children(f: Seq<NodeView>, rest: Seq<usize>, k: int)
    requires
        forest_wf(f),
        0 <= k < f.len(),
    ensures
        f[k].children.len() == 0 ==> preorder(f, k) + pending(f, rest) == seq![k as usize]
            + pending(f, rest),
        f[k].children.len() == 2 ==> preorder(f, k) + pending(f, rest) == seq![k as usize]
            + pending(f, rest.push(f[k].children[1]).push(f[k].children[0])),
{
    assert(node_wf(f, k));
    if f[k].children.len() == 2 {
        let c0 = f[k].children[0];
        let c1 = f[k].children[1];
        let s1 = rest.push(c1);
        let s2 = s1.push(c0);
        assert(s2.drop_last() =~= s1);
        assert(s1.drop_last() =~= rest);
        assert(pending(f, s2) == preorder(f, c0 as int) + pending(f, s1));
        assert(pending(f, s1) == preorder(f, c1 as int) + pending(f, rest));
        assert(preorder(f, k) + pending(f, rest) =~= seq![k as usize] + pending(f, s2));
    }
}

} // verus!
