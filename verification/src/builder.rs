//! The reconstruction engine: builds a binary tree from a level-order
//! token stream.  The executable loop is verified against a ghost
//! state machine (`engine_step` / `engine_run`) over the tree model.

use vstd::prelude::*;
use crate::parser::TokenParser;
use crate::tree::{
    all_attached, attached, children_above_parent, children_distinct, empty_tree, node_model,
    opt_index, tree_wf, NodeModel, Tree, TreeModel, TreeNode,
};

verus! {

/// Which slot the next token fills: the root, a left child, or a right
/// child.  Created in state `Root`; thereafter the cursor alternates
/// between `LeftChild` and `RightChild` forever.
#[derive(Copy, Clone, PartialEq, Eq, Structural)]
pub enum NodeType {
    Root,
    LeftChild,
    RightChild,
}

impl NodeType {
    /// The cursor after one more token:
    /// Root -> LeftChild -> RightChild -> LeftChild -> ...
    pub open spec fn spec_next(self) -> NodeType {
        match self {
            NodeType::Root => NodeType::LeftChild,
            NodeType::LeftChild => NodeType::RightChild,
            NodeType::RightChild => NodeType::LeftChild,
        }
    }

    /// Advances the cursor by one token.
    pub fn next(self) -> (r: Self)
        ensures
            r == self.spec_next(),
    {
        match self {
            NodeType::Root => NodeType::LeftChild,
            NodeType::LeftChild => NodeType::RightChild,
            NodeType::RightChild => NodeType::LeftChild,
        }
    }
}

/// A measure that falls on the orphan path: retrying a token takes at
/// most one visit to each child slot before the pending queue shrinks.
pub open spec fn role_rank(r: NodeType) -> nat {
    match r {
        NodeType::Root => 2,
        NodeType::LeftChild => 1,
        NodeType::RightChild => 0,
    }
}

/// The whole state the engine carries across one run: the tree under
/// construction, the pending-parent queue, the current-parent slot,
/// the role cursor, and the parse results of the tokens still to be
/// consumed.
#[verifier::ext_equal]
pub ghost struct EngineState<K> {
    pub tree: TreeModel<K>,
    pub records: Seq<Option<int>>,
    pub parent: Option<int>,
    pub role: NodeType,
    pub toks: Seq<Option<K>>,
}

/// The engine's starting state for a given token stream: empty tree,
/// empty queue, no current parent, cursor at `Root`.
pub open spec fn init_state<K>(toks: Seq<Option<K>>) -> EngineState<K> {
    EngineState {
        tree: empty_tree::<K>(),
        records: Seq::empty(),
        parent: None,
        role: NodeType::Root,
        toks,
    }
}

/// The front token parses but no parent can receive it: the token is
/// an orphan, to be rolled back and retried.
pub open spec fn orphan_case<K>(s: EngineState<K>) -> bool {
    &&& s.parent is None
    &&& s.role != NodeType::Root
    &&& s.toks[0] is Some
}

/// The engine can make no further progress: the front token is an
/// orphan and the pending queue is empty, so no retry could ever find
/// a parent for it.  The run stops here, leaving the token unconsumed.
pub open spec fn engine_stalled<K>(s: EngineState<K>) -> bool {
    &&& s.toks.len() > 0
    &&& orphan_case(s)
    &&& s.records.len() == 0
}

/// One iteration of the engine on a non-empty, non-stalled stream.
///
/// On the orphan path the freshly inserted node is rolled back and the
/// token stays at the front, so the tree and the stream are unchanged;
/// only the dispatch on the role cursor and the cursor advance act.
/// On the normal path the token is consumed: a parsed key becomes a
/// fresh arena node, the node-or-null is enqueued, and the role decides
/// which slot it fills.
pub open spec fn engine_step<K>(s: EngineState<K>) -> EngineState<K>
    recommends
        s.toks.len() > 0,
        !engine_stalled(s),
{
    if orphan_case(s) {
        if s.role == NodeType::RightChild {
            EngineState {
                parent: s.records[0],
                records: s.records.drop_first(),
                role: s.role.spec_next(),
                ..s
            }
        } else {
            EngineState { role: s.role.spec_next(), ..s }
        }
    } else {
        let tok = s.toks[0];
        let tree1 = match tok {
            Some(k) => TreeModel { nodes: s.tree.nodes.push(node_model(k)), ..s.tree },
            None => s.tree,
        };
        let cur = match tok {
            Some(k) => Some(s.tree.nodes.len() as int),
            None => None,
        };
        let records1 = s.records.push(cur);
        let toks1 = s.toks.drop_first();
        match s.role {
            NodeType::Root => EngineState {
                tree: TreeModel { root: cur, ..tree1 },
                records: records1.drop_first(),
                parent: records1[0],
                role: s.role.spec_next(),
                toks: toks1,
            },
            NodeType::LeftChild => EngineState {
                tree: match s.parent {
                    Some(p) => TreeModel {
                        nodes: tree1.nodes.update(
                            p,
                            (NodeModel { left: cur, ..tree1.nodes[p] }),
                        ),
                        ..tree1
                    },
                    None => tree1,
                },
                records: records1,
                parent: s.parent,
                role: s.role.spec_next(),
                toks: toks1,
            },
            NodeType::RightChild => EngineState {
                tree: match s.parent {
                    Some(p) => TreeModel {
                        nodes: tree1.nodes.update(
                            p,
                            (NodeModel { right: cur, ..tree1.nodes[p] }),
                        ),
                        ..tree1
                    },
                    None => tree1,
                },
                // the queue holds at least the entry just pushed, so
                // the next pending parent always replaces the old one
                records: records1.drop_first(),
                parent: records1[0],
                role: s.role.spec_next(),
                toks: toks1,
            },
        }
    }
}

/// Runs the engine to completion: until the stream is empty or the
/// engine stalls on an orphan it can never place.
pub open spec fn engine_run<K>(s: EngineState<K>) -> EngineState<K>
    decreases s.toks.len(), s.records.len(), role_rank(s.role),
{
    if s.toks.len() == 0 || engine_stalled(s) {
        s
    } else {
        engine_run(engine_step(s))
    }
}

/// The parse results of a token slice under a given parser.
pub open spec fn parse_results<K, P: TokenParser<K>>(parser: &P, tokens: Seq<&str>) -> Seq<
    Option<K>,
> {
    Seq::new(tokens.len(), |i: int| parser.spec_parse(tokens[i]@))
}

/// The bounds the engine maintains: every index held by the tree, the
/// queue or the parent slot points into the arena.
pub open spec fn state_bounded<K>(s: EngineState<K>) -> bool {
    let n = s.tree.nodes.len() as int;
    &&& (s.tree.root matches Some(r) ==> 0 <= r < n)
    &&& (s.parent matches Some(p) ==> 0 <= p < n)
    &&& (forall|q: int|
        0 <= q < s.records.len() ==> (#[trigger] s.records[q] matches Some(e) ==> 0 <= e < n))
    &&& (forall|i: int|
        0 <= i < n ==> ((#[trigger] s.tree.nodes[i].left matches Some(c) ==> 0 <= c < n) && (
        #[trigger] s.tree.nodes[i].right matches Some(c) ==> 0 <= c < n)))
}

/// One engine step keeps every held index inside the arena.
proof fn lemma_step_bounded<K>(s: EngineState<K>)
    requires
        s.toks.len() > 0,
        !engine_stalled(s),
        state_bounded(s),
    ensures
        state_bounded(engine_step(s)),
{
}

/// A pending-parent queue entry is sound: it points at an arena node
/// that has not yet been given any children.
pub open spec fn record_ok<K>(nodes: Seq<NodeModel<K>>, e: Option<int>) -> bool {
    match e {
        Some(q) => 0 <= q < nodes.len() && nodes[q].left is None && nodes[q].right is None,
        None => true,
    }
}

/// Everything the engine keeps true from one step to the next, beyond
/// the index bounds: the tree under construction is well formed, queue
/// entries are sound and pairwise distinct, the current parent is not
/// queued, and the parent's child slots still to be filled at the
/// current role are empty.
pub open spec fn engine_inv<K>(s: EngineState<K>) -> bool {
    let nodes = s.tree.nodes;
    &&& state_bounded(s)
    &&& children_distinct(nodes)
    &&& children_above_parent(nodes)
    &&& all_attached(s.tree)
    &&& (forall|q: int| 0 <= q < s.records.len() ==> record_ok(nodes, #[trigger] s.records[q]))
    &&& (forall|a: int, b: int|
        0 <= a < b < s.records.len() && #[trigger] s.records[a] is Some ==> s.records[a]
            != #[trigger] s.records[b])
    &&& (forall|a: int|
        0 <= a < s.records.len() && s.parent is Some ==> #[trigger] s.records[a] != s.parent)
    &&& (s.role == NodeType::LeftChild ==> (s.parent matches Some(p) ==> nodes[p].left is None
        && nodes[p].right is None))
    &&& (s.role == NodeType::RightChild ==> (s.parent matches Some(p) ==> nodes[p].right
        is None))
    &&& (s.role == NodeType::Root ==> s.tree.root is None && s.parent is None)
}

/// One engine step preserves the invariant.  The crucial fact is that
/// a node inserted by the step carries the index `len`, which exceeds
/// every index the state already holds: attaching it can never alias
/// an existing child reference, and a rolled-back node was never
/// referenced at all.
proof fn lemma_step_inv<K>(s: EngineState<K>)
    requires
        s.toks.len() > 0,
        !engine_stalled(s),
        engine_inv(s),
    ensures
        engine_inv(engine_step(s)),
{
    let s2 = engine_step(s);
    let nodes = s.tree.nodes;
    let n = nodes.len() as int;
    if orphan_case(s) {
        assert(s2.tree == s.tree);
        if s.role == NodeType::RightChild {
            assert(record_ok(nodes, s.records[0]));
        }
    } else {
        let tok = s.toks[0];
        match tok {
            Some(k) => {
                let nodes1 = nodes.push(node_model(k));
                // the fresh node is above every index the state holds
                assert(forall|i: int| 0 <= i < n ==> #[trigger] nodes1[i] == nodes[i]);
                assert(nodes1[n] == node_model(k));
                match s.role {
                    NodeType::Root => {
                        let t2 = s2.tree;
                        assert(t2.nodes == nodes1);
                        assert(t2.root == Some(n));
                        assert forall|c: int| 0 <= c < t2.nodes.len() implies #[trigger] attached(
                            t2,
                            c,
                        ) by {
                            if c < n {
                                assert(attached(s.tree, c));
                                assert(!(s.tree.root == Some(c)));
                                let i = choose|i: int|
                                    0 <= i < nodes.len() && (#[trigger] nodes[i].left == Some(c)
                                        || nodes[i].right == Some(c));
                                assert(0 <= i < t2.nodes.len() && (t2.nodes[i].left == Some(c)
                                    || t2.nodes[i].right == Some(c)));
                            }
                        }
                        assert(engine_inv(s2));
                    },
                    NodeType::LeftChild => {
                        let p = s.parent->Some_0;
                        let nodes2 = nodes1.update(p, (NodeModel { left: Some(n), ..nodes1[p] }));
                        assert(s2.tree.nodes == nodes2);
                        assert(forall|i: int|
                            0 <= i < nodes2.len() && i != p ==> #[trigger] nodes2[i] == nodes1[i]);
                        assert(nodes2[p].right == nodes[p].right);
                        assert forall|c: int| 0 <= c < nodes2.len() implies #[trigger] attached(
                            s2.tree,
                            c,
                        ) by {
                            if c == n {
                                assert(nodes2[p].left == Some(c));
                            } else {
                                assert(attached(s.tree, c));
                                if s.tree.root == Some(c) {
                                    assert(s2.tree.root == Some(c));
                                } else {
                                    let i = choose|i: int|
                                        0 <= i < nodes.len() && (#[trigger] nodes[i].left == Some(c)
                                            || nodes[i].right == Some(c));
                                    assert(nodes2[i].left == nodes[i].left || i == p);
                                    assert(0 <= i < nodes2.len() && (nodes2[i].left == Some(c)
                                        || nodes2[i].right == Some(c)));
                                }
                            }
                        }
                        assert(engine_inv(s2));
                    },
                    NodeType::RightChild => {
                        let p = s.parent->Some_0;
                        let nodes2 = nodes1.update(p, (NodeModel { right: Some(n), ..nodes1[p] }));
                        assert(s2.tree.nodes == nodes2);
                        assert(forall|i: int|
                            0 <= i < nodes2.len() && i != p ==> #[trigger] nodes2[i] == nodes1[i]);
                        assert(nodes2[p].left == nodes[p].left);
                        assert forall|c: int| 0 <= c < nodes2.len() implies #[trigger] attached(
                            s2.tree,
                            c,
                        ) by {
                            if c == n {
                                assert(nodes2[p].right == Some(c));
                            } else {
                                assert(attached(s.tree, c));
                                if s.tree.root == Some(c) {
                                    assert(s2.tree.root == Some(c));
                                } else {
                                    let i = choose|i: int|
                                        0 <= i < nodes.len() && (#[trigger] nodes[i].left == Some(c)
                                            || nodes[i].right == Some(c));
                                    assert(nodes2[i].right == nodes[i].right || i == p);
                                    assert(0 <= i < nodes2.len() && (nodes2[i].left == Some(c)
                                        || nodes2[i].right == Some(c)));
                                }
                            }
                        }
                        assert(record_ok(nodes2, s.records.push(Some(n))[0]));
                        assert(engine_inv(s2));
                    },
                }
            },
            None => {
                // no node is created; any dispatch writes `None` into a
                // slot that the invariant already says is `None`
                match s.role {
                    NodeType::Root => {
                        assert(s2.tree.nodes == nodes);
                        assert forall|c: int| 0 <= c < nodes.len() implies #[trigger] attached(
                            s2.tree,
                            c,
                        ) by {
                            assert(attached(s.tree, c));
                            assert(!(s.tree.root == Some(c)));
                        }
                        assert(engine_inv(s2));
                    },
                    NodeType::LeftChild => {
                        match s.parent {
                            Some(p) => {
                                assert(s2.tree.nodes =~= nodes);
                                assert(s2.tree =~= s.tree);
                            },
                            None => {},
                        }
                        assert(engine_inv(s2));
                    },
                    NodeType::RightChild => {
                        match s.parent {
                            Some(p) => {
                                assert(s2.tree.nodes =~= nodes);
                                assert(s2.tree =~= s.tree);
                            },
                            None => {},
                        }
                        assert(record_ok(s2.tree.nodes, s.records.push(None)[0]));
                        assert(engine_inv(s2));
                    },
                }
            },
        }
    }
}

/// A full run preserves the invariant.
proof fn lemma_run_inv<K>(s: EngineState<K>)
    requires
        engine_inv(s),
    ensures
        engine_inv(engine_run(s)),
    decreases s.toks.len(), s.records.len(), role_rank(s.role),
{
    if s.toks.len() == 0 || engine_stalled(s) {
    } else {
        lemma_step_inv(s);
        lemma_run_inv(engine_step(s));
    }
}

/// The engine's starting state satisfies the invariant.
proof fn lemma_init_inv<K>(toks: Seq<Option<K>>)
    ensures
        engine_inv(init_state(toks)),
{
}

/// What a finished run guarantees structurally: the tree that comes
/// out of the engine is well formed — all references in range, no
/// index the child of two slots, every node attached.
pub proof fn lemma_run_tree_wf<K>(toks: Seq<Option<K>>)
    ensures
        tree_wf(engine_run(init_state(toks)).tree),
{
    lemma_init_inv(toks);
    lemma_run_inv(init_state(toks));
}

/// Every node of the built tree is reachable from the root: the arena
/// never ends up holding a node that the rollback path should have
/// removed or that no parent took.
pub proof fn lemma_run_all_reachable<K>(toks: Seq<Option<K>>, c: int)
    requires
        0 <= c < engine_run(init_state(toks)).tree.nodes.len(),
    ensures
        crate::tree::reachable(engine_run(init_state(toks)).tree, c),
{
    lemma_run_tree_wf(toks);
    crate::tree::lemma_wf_all_reachable(engine_run(init_state(toks)).tree, c);
}

/// When the orphan path fires, the arena's size returns to its value
/// before the token's node was inserted, and the token stays at the
/// front of the stream to be retried: an orphan step changes neither
/// the tree nor the stream.
pub proof fn lemma_orphan_rollback<K>(s: EngineState<K>)
    requires
        s.toks.len() > 0,
        orphan_case(s),
    ensures
        engine_step(s).tree == s.tree,
        engine_step(s).toks == s.toks,
{
}

/// How many tokens of a stream parse as keys.
pub open spec fn value_count<K>(toks: Seq<Option<K>>) -> int
    decreases toks.len(),
{
    if toks.len() == 0 {
        0
    } else {
        (if toks[0] is Some {
            1int
        } else {
            0int
        }) + value_count(toks.drop_first())
    }
}

/// Conservation of nodes: a run creates exactly one arena node per
/// value token it consumes.  A token that fails to parse never leaves
/// a node behind, and a rolled-back orphan leaves the arena unchanged.
pub proof fn lemma_run_node_count<K>(s: EngineState<K>)
    requires
        state_bounded(s),
    ensures
        engine_run(s).tree.nodes.len() + value_count(engine_run(s).toks) == s.tree.nodes.len()
            + value_count(s.toks),
    decreases s.toks.len(), s.records.len(), role_rank(s.role),
{
    if s.toks.len() == 0 || engine_stalled(s) {
    } else {
        let s1 = engine_step(s);
        lemma_step_bounded(s);
        if orphan_case(s) {
            assert(s1.tree == s.tree);
            assert(s1.toks == s.toks);
        } else {
            assert(s1.toks == s.toks.drop_first());
            assert(value_count(s.toks) == (if s.toks[0] is Some {
                1int
            } else {
                0int
            }) + value_count(s1.toks));
            match s.toks[0] {
                Some(k) => {
                    assert(s1.tree.nodes.len() == s.tree.nodes.len() + 1);
                },
                None => {
                    assert(s1.tree.nodes.len() == s.tree.nodes.len());
                },
            }
        }
        lemma_run_node_count(s1);
    }
}

/// On input the engine consumes completely, the arena's final size is
/// exactly the number of tokens that parsed as keys.
pub proof fn lemma_full_run_node_count<K>(toks: Seq<Option<K>>)
    requires
        engine_run(init_state(toks)).toks.len() == 0,
    ensures
        engine_run(init_state(toks)).tree.nodes.len() == value_count(toks),
{
    lemma_run_node_count(init_state(toks));
}

/// Empty input yields the empty tree: no root, empty arena.
pub proof fn lemma_empty_input<K>()
    ensures
        engine_run(init_state(Seq::<Option<K>>::empty())) == init_state(Seq::<Option<K>>::empty()),
        engine_run(init_state(Seq::<Option<K>>::empty())).tree == empty_tree::<K>(),
{
}

/// A single value token yields a tree with one node and no children,
/// whatever the key type and key.
pub proof fn lemma_single_value<K>(k: K)
    ensures
        engine_run(init_state(seq![Some(k)])).tree == (TreeModel {
            root: Some(0int),
            nodes: seq![node_model(k)],
        }),
{
    reveal_with_fuel(engine_run, 3);
    let s0 = init_state(seq![Some(k)]);
    let s1 = engine_step(s0);
    assert(s1.toks =~= Seq::<Option<K>>::empty());
    assert(engine_run(s0) == s1);
    assert(s1.tree.nodes =~= seq![node_model(k)]);
    assert(s1.tree =~= (TreeModel { root: Some(0int), nodes: seq![node_model(k)] }));
}

/// The exec loop state, abstracted to an engine state.
pub open spec fn loop_model<K>(
    tree: TreeModel<K>,
    records: Seq<Option<usize>>,
    parent: Option<usize>,
    role: NodeType,
    toks: Seq<Option<K>>,
    consumed: int,
) -> EngineState<K> {
    EngineState {
        tree,
        records: records.map_values(|o: Option<usize>| opt_index(o)),
        parent: opt_index(parent),
        role,
        toks: toks.skip(consumed),
    }
}

/// Parses one token and, on success, appends a fresh node for it to
/// the arena, returning the new node's index.  A sentinel token leaves
/// the tree untouched and returns `None`.
pub fn add_value<K, P: TokenParser<K>>(parser: &P, tree: &mut Tree<K>, v: &str) -> (r: Option<
    usize,
>)
    requires
        old(tree)@.nodes.len() < usize::MAX,
    ensures
        match parser.spec_parse(v@) {
            Some(k) => {
                &&& r == Some((old(tree)@.nodes.len()) as usize)
                &&& final(tree)@.nodes == old(tree)@.nodes.push(node_model(k))
                &&& final(tree)@.root == old(tree)@.root
            },
            None => {
                &&& r is None
                &&& final(tree)@ == old(tree)@
            },
        },
{
    match parser.parse(v) {
        Some(k) => Some(tree.add_node(TreeNode::from_key(k))),
        None => None,
    }
}

/// After the root has been placed, a stream of only sentinel tokens
/// changes nothing: every write just re-stores `None` into a child
/// slot that is still empty, and queue entries stay null.
proof fn lemma_nulls_no_change<K>(s: EngineState<K>)
    requires
        state_bounded(s),
        s.role != NodeType::Root,
        forall|i: int| 0 <= i < s.toks.len() ==> #[trigger] s.toks[i] is None,
        forall|q: int| 0 <= q < s.records.len() ==> #[trigger] s.records[q] is None,
        s.parent matches Some(p) ==> s.tree.nodes[p].left is None && s.tree.nodes[p].right
            is None,
    ensures
        engine_run(s).tree == s.tree,
    decreases s.toks.len(), s.records.len(), role_rank(s.role),
{
    if s.toks.len() == 0 || engine_stalled(s) {
    } else {
        assert(s.toks[0] is None);
        assert(!orphan_case(s));
        let s1 = engine_step(s);
        lemma_step_bounded(s);
        assert(s1.tree.nodes =~= s.tree.nodes);
        assert(s1.tree =~= s.tree);
        assert(forall|i: int| 0 <= i < s1.toks.len() ==> #[trigger] s1.toks[i] is None);
        assert(forall|q: int| 0 <= q < s1.records.len() ==> #[trigger] s1.records[q] is None);
        lemma_nulls_no_change(s1);
    }
}

/// A value token followed by any number of sentinel tokens yields the
/// single-node tree, independent of how many trailing sentinels there
/// are.
pub proof fn lemma_trailing_nulls<K>(k: K, n: nat)
    ensures
        engine_run(init_state(seq![Some(k)] + Seq::new(n, |i: int| None::<K>))).tree == (TreeModel {
            root: Some(0int),
            nodes: seq![node_model(k)],
        }),
{
    let nulls = Seq::new(n, |i: int| None::<K>);
    let toks = seq![Some(k)] + nulls;
    let s0 = init_state(toks);
    assert(s0.toks[0] == Some(k));
    let s1 = engine_step(s0);
    assert(s1.toks =~= nulls);
    assert(s1.records =~= Seq::<Option<int>>::empty());
    assert(s1.tree.nodes =~= seq![node_model(k)]);
    assert(s1.tree =~= (TreeModel { root: Some(0int), nodes: seq![node_model(k)] }));
    assert(engine_run(s0) == engine_run(s1));
    lemma_nulls_no_change(s1);
}

/// Once the cursor has left `Root`, the tree's root reference never
/// changes again: only the very first dispatch writes it.
proof fn lemma_run_root_stable<K>(s: EngineState<K>)
    requires
        s.role != NodeType::Root,
    ensures
        engine_run(s).tree.root == s.tree.root,
    decreases s.toks.len(), s.records.len(), role_rank(s.role),
{
    if s.toks.len() == 0 || engine_stalled(s) {
    } else {
        let s1 = engine_step(s);
        assert(s1.tree.root == s.tree.root);
        lemma_run_root_stable(s1);
    }
}

/// The root is decided by the first token alone: if it parses, the
/// root is node 0; if it is a sentinel, the tree stays rootless.
pub proof fn lemma_root_is_first_token<K>(toks: Seq<Option<K>>)
    requires
        toks.len() > 0,
    ensures
        engine_run(init_state(toks)).tree.root == (match toks[0] {
            Some(k) => Some(0int),
            None => None::<int>,
        }),
{
    let s0 = init_state(toks);
    let s1 = engine_step(s0);
    assert(engine_run(s0) == engine_run(s1));
    lemma_run_root_stable(s1);
}

/// Rebuilds a binary tree from a level-order token stream.
///
/// The result is exactly what the engine model computes on the parse
/// results of `vec`: tokens are consumed front to back, a token that
/// fails to parse marks an absent child, and a parsed token that no
/// pending parent can receive is rolled back and retried.  If such an
/// orphan can never be placed (the stream holds more value tokens than
/// the tree shape admits), reconstruction stops and returns the tree
/// built so far: an open-ended retry would keep requeueing the same
/// token forever, so the engine gives up exactly there.
pub fn build<K, P: TokenParser<K>>(parser: &P, vec: &[&str]) -> (t: Tree<K>)
    ensures
        t@ == engine_run(init_state(parse_results(parser, vec@))).tree,
        tree_wf(t@),
{
    proof {
        lemma_run_tree_wf(parse_results(parser, vec@));
    }
    let ghost toks = parse_results(parser, vec@);
    let ghost s0 = init_state(toks);

    let mut tree = Tree::<K>::new();
    let mut records: Vec<Option<usize>> = Vec::new();
    let mut nt = NodeType::Root;
    let mut parent: Option<usize> = None;
    let mut i: usize = 0;

    proof {
        assert(loop_model(tree@, records@, parent, nt, toks, 0) =~= s0);
    }

    while i < vec.len()
        invariant
            toks == parse_results(parser, vec@),
            0 <= i <= vec@.len(),
            tree@.nodes.len() <= i,
            state_bounded(loop_model(tree@, records@, parent, nt, toks, i as int)),
            engine_run(s0) == engine_run(loop_model(tree@, records@, parent, nt, toks, i as int)),
        ensures
            tree@ == engine_run(s0).tree,
        decreases vec@.len() - i, records@.len(), role_rank(nt),
    {
        let ghost m = loop_model(tree@, records@, parent, nt, toks, i as int);
        proof {
            assert(m.toks.len() > 0);
            assert(m.toks[0] == toks[i as int]);
        }

        let token: &str = vec[i];
        let cur = add_value(parser, &mut tree, token);

        let orphan = parent.is_none() && nt != NodeType::Root && cur.is_some();
        if orphan {
            // No parent can receive this node: undo the insertion and
            // leave the token at the front of the stream.
            let c = cur.unwrap();
            tree.remove(c);
            proof {
                assert(tree@.nodes =~= m.tree.nodes);
                assert(tree@ =~= m.tree);
            }
            if records.len() == 0 {
                // The queue is empty as well: no retry can ever place
                // this token, so the run stops here.
                proof {
                    assert(loop_model(tree@, records@, parent, nt, toks, i as int) =~= m);
                    assert(engine_stalled(m));
                    assert(engine_run(m) == m);
                }
                break;
            }
        } else {
            records.push(cur);
            i = i + 1;
        }

        match nt {
            NodeType::Root => {
                tree.root = cur;
                let p = records.remove(0);
                parent = p;
            },
            NodeType::LeftChild => {
                if let Some(p) = parent {
                    tree.set_left(p, cur);
                }
            },
            NodeType::RightChild => {
                if let Some(p) = parent {
                    tree.set_right(p, cur);
                }
                if records.len() > 0 {
                    parent = records.remove(0);
                }
            },
        }

        nt = nt.next();

        proof {
            let m2 = loop_model(tree@, records@, parent, nt, toks, i as int);
            assert(!engine_stalled(m));
            assert(m2 =~= engine_step(m));
            lemma_step_bounded(m);
            assert(engine_run(m) == engine_run(m2));
        }
    }

    tree
}

/// Marker type that carries the tree-building interfaces.
pub struct TreeBuilder;

/// Building a binary tree from a level-order token slice, with any
/// token the parser rejects standing for an absent child.
pub trait BuildTreeInLevel<K, P: TokenParser<K>> {
    /// Rebuilds the tree encoded by `vec` in level order.
    fn build_in_level(parser: &P, vec: &[&str]) -> (t: Tree<K>)
        ensures
            t@ == engine_run(init_state(parse_results(parser, vec@))).tree,
            tree_wf(t@),
    ;
}

impl<K, P: TokenParser<K>> BuildTreeInLevel<K, P> for TreeBuilder {
    fn build_in_level(parser: &P, vec: &[&str]) -> (t: Tree<K>) {
        build(parser, vec)
    }
}

} // verus!

