//! The node arena: an append-only, index-addressed store of tree nodes,
//! together with the mathematical model it is verified against.

use vstd::prelude::*;

verus! {

/// One tree node held by the arena: a key plus the optional arena
/// indices of its left and right children.
pub struct TreeNode<K> {
    pub key: K,
    pub left: Option<usize>,
    pub right: Option<usize>,
}

/// Mathematical image of a node, with child indices widened to `int`.
#[verifier::ext_equal]
pub ghost struct NodeModel<K> {
    pub key: K,
    pub left: Option<int>,
    pub right: Option<int>,
}

/// Mathematical image of a tree: the optional root index and the arena
/// as a sequence of node models.
#[verifier::ext_equal]
pub ghost struct TreeModel<K> {
    pub root: Option<int>,
    pub nodes: Seq<NodeModel<K>>,
}

/// An optional arena index, widened from the executable representation.
pub open spec fn opt_index(o: Option<usize>) -> Option<int> {
    match o {
        Some(i) => Some(i as int),
        None => None,
    }
}

/// The model of a node that has just been created: no children yet.
pub open spec fn node_model<K>(key: K) -> NodeModel<K> {
    NodeModel { key, left: None, right: None }
}

/// The model of an empty tree: no root, empty arena.
pub open spec fn empty_tree<K>() -> TreeModel<K> {
    TreeModel { root: None, nodes: Seq::empty() }
}

/// Every child reference in the arena points at an existing node.
pub open spec fn children_in_range<K>(nodes: Seq<NodeModel<K>>) -> bool {
    forall|i: int|
        0 <= i < nodes.len() ==> {
            &&& match #[trigger] nodes[i].left {
                Some(c) => 0 <= c < nodes.len(),
                None => true,
            }
            &&& match #[trigger] nodes[i].right {
                Some(c) => 0 <= c < nodes.len(),
                None => true,
            }
        }
}

/// No arena index is the child of two different slots: the structure
/// is a tree, not a general graph.
pub open spec fn children_distinct<K>(nodes: Seq<NodeModel<K>>) -> bool {
    forall|i: int, j: int|
        #![trigger nodes[i].left, nodes[j].left]
        #![trigger nodes[i].left, nodes[j].right]
        #![trigger nodes[i].right, nodes[j].right]
        0 <= i < nodes.len() && 0 <= j < nodes.len() ==> {
            &&& (i != j && nodes[i].left is Some ==> nodes[i].left != nodes[j].left)
            &&& (nodes[i].left is Some ==> nodes[i].left != nodes[j].right)
            &&& (i != j && nodes[i].right is Some ==> nodes[i].right != nodes[j].right)
        }
}

/// Children always sit above their parent in the arena: nodes are
/// appended after the node they are attached to.
pub open spec fn children_above_parent<K>(nodes: Seq<NodeModel<K>>) -> bool {
    forall|i: int|
        0 <= i < nodes.len() ==> {
            &&& match #[trigger] nodes[i].left {
                Some(c) => i < c,
                None => true,
            }
            &&& match #[trigger] nodes[i].right {
                Some(c) => i < c,
                None => true,
            }
        }
}

/// The index `c` is held somewhere: it is the root, or some slot's
/// child.
pub open spec fn attached<K>(t: TreeModel<K>, c: int) -> bool {
    ||| t.root == Some(c)
    ||| exists|i: int|
        0 <= i < t.nodes.len() && (#[trigger] t.nodes[i].left == Some(c) || t.nodes[i].right
            == Some(c))
}

/// Every node of the arena is attached.
pub open spec fn all_attached<K>(t: TreeModel<K>) -> bool {
    forall|c: int| 0 <= c < t.nodes.len() ==> #[trigger] attached(t, c)
}

/// The index `c` can be reached from the root in at most `n` steps of
/// walking child references backwards to their holder.
pub open spec fn reach_within<K>(t: TreeModel<K>, c: int, n: nat) -> bool
    decreases n,
{
    if t.root == Some(c) {
        true
    } else if n == 0 {
        false
    } else {
        exists|i: int|
            0 <= i < t.nodes.len() && (#[trigger] t.nodes[i].left == Some(c) || t.nodes[i].right
                == Some(c)) && reach_within(t, i, (n - 1) as nat)
    }
}

/// The index `c` is reachable from the root through child references.
pub open spec fn reachable<K>(t: TreeModel<K>, c: int) -> bool {
    exists|n: nat| reach_within(t, c, n)
}

/// Structural well-formedness of a built tree: the root and all child
/// references are in range, no index is the child of two slots,
/// children sit above their parents, and every node is held somewhere.
pub open spec fn tree_wf<K>(t: TreeModel<K>) -> bool {
    &&& match t.root {
        Some(r) => 0 <= r < t.nodes.len(),
        None => true,
    }
    &&& children_in_range(t.nodes)
    &&& children_distinct(t.nodes)
    &&& children_above_parent(t.nodes)
    &&& all_attached(t)
}

/// In a well-formed tree every node is reachable from the root: each
/// node is held by some slot whose owner sits strictly below it, so
/// walking holders downward must end at the root.
pub proof fn lemma_wf_all_reachable<K>(t: TreeModel<K>, c: int)
    requires
        tree_wf(t),
        0 <= c < t.nodes.len(),
    ensures
        reachable(t, c),
    decreases c,
{
    if t.root == Some(c) {
        assert(reach_within(t, c, 0));
    } else {
        assert(attached(t, c));
        let i = choose|i: int|
            0 <= i < t.nodes.len() && (#[trigger] t.nodes[i].left == Some(c) || t.nodes[i].right
                == Some(c));
        assert(i < c);
        lemma_wf_all_reachable(t, i);
        let n = choose|n: nat| reach_within(t, i, n);
        assert(reach_within(t, c, n + 1));
    }
}

impl<K> View for TreeNode<K> {
    type V = NodeModel<K>;

    open spec fn view(&self) -> NodeModel<K> {
        NodeModel { key: self.key, left: opt_index(self.left), right: opt_index(self.right) }
    }
}

impl<K> TreeNode<K> {
    /// A fresh node carrying `key` and no children.
    pub fn from_key(key: K) -> (n: TreeNode<K>)
        ensures
            n@ == node_model(key),
    {
        TreeNode { key, left: None, right: None }
    }
}

/// A binary tree: a root reference plus the arena that owns the nodes.
pub struct Tree<K> {
    pub root: Option<usize>,
    pub nodes: Vec<TreeNode<K>>,
}

impl<K> View for Tree<K> {
    type V = TreeModel<K>;

    open spec fn view(&self) -> TreeModel<K> {
        TreeModel {
            root: opt_index(self.root),
            nodes: self.nodes@.map_values(|n: TreeNode<K>| n@),
        }
    }
}

impl<K> Tree<K> {
    /// An empty tree: no root, empty arena.
    pub fn new() -> (t: Tree<K>)
        ensures
            t@ == empty_tree::<K>(),
    {
        let t = Tree { root: None, nodes: Vec::new() };
        proof {
            assert(t@.nodes =~= Seq::<NodeModel<K>>::empty());
        }
        t
    }

    /// How many nodes the arena holds.
    pub fn len(&self) -> (n: usize)
        ensures
            n == self@.nodes.len(),
    {
        self.nodes.len()
    }

    /// Appends a node to the arena and returns its index.
    pub fn add_node(&mut self, node: TreeNode<K>) -> (idx: usize)
        requires
            old(self)@.nodes.len() < usize::MAX,
        ensures
            idx == old(self)@.nodes.len(),
            final(self)@.nodes == old(self)@.nodes.push(node@),
            final(self)@.root == old(self)@.root,
    {
        let idx = self.nodes.len();
        self.nodes.push(node);
        proof {
            assert(self@.nodes =~= old(self)@.nodes.push(node@));
        }
        idx
    }

    /// Undoes the most recent insertion.  Only the last node may be
    /// removed: the arena is not a general-purpose delete structure.
    pub fn remove(&mut self, idx: usize)
        requires
            idx + 1 == old(self)@.nodes.len(),
        ensures
            final(self)@.nodes == old(self)@.nodes.drop_last(),
            final(self)@.root == old(self)@.root,
    {
        let _ = self.nodes.pop();
        proof {
            assert(self@.nodes =~= old(self)@.nodes.drop_last());
        }
    }

    /// A read-only view of the node at `idx`, or `None` when the index
    /// is out of range.
    pub fn node_at(&self, idx: usize) -> (r: Option<&TreeNode<K>>)
        ensures
            match r {
                Some(n) => idx < self@.nodes.len() && n@ == self@.nodes[idx as int],
                None => idx >= self@.nodes.len(),
            },
    {
        if idx < self.nodes.len() {
            Some(&self.nodes[idx])
        } else {
            None
        }
    }

    /// Sets the left child reference of the node at `idx`.
    pub fn set_left(&mut self, idx: usize, child: Option<usize>)
        requires
            idx < old(self)@.nodes.len(),
        ensures
            final(self)@.nodes == old(self)@.nodes.update(
                idx as int,
                (NodeModel { left: opt_index(child), ..old(self)@.nodes[idx as int] }),
            ),
            final(self)@.root == old(self)@.root,
    {
        let node = &mut self.nodes[idx];
        node.left = child;
        proof {
            assert(self@.nodes =~= old(self)@.nodes.update(
                idx as int,
                (NodeModel { left: opt_index(child), ..old(self)@.nodes[idx as int] }),
            ));
        }
    }

    /// Sets the right child reference of the node at `idx`.
    pub fn set_right(&mut self, idx: usize, child: Option<usize>)
        requires
            idx < old(self)@.nodes.len(),
        ensures
            final(self)@.nodes == old(self)@.nodes.update(
                idx as int,
                (NodeModel { right: opt_index(child), ..old(self)@.nodes[idx as int] }),
            ),
            final(self)@.root == old(self)@.root,
    {
        let node = &mut self.nodes[idx];
        node.right = child;
        proof {
            assert(self@.nodes =~= old(self)@.nodes.update(
                idx as int,
                (NodeModel { right: opt_index(child), ..old(self)@.nodes[idx as int] }),
            ));
        }
    }
}

} // verus!
