use level_tree::{add_value, DecimalParser, NodeType, Tree, TreeNode};

#[test]
fn new_tree_is_empty() {
    let t: Tree<u64> = Tree::new();
    assert!(t.root.is_none());
    assert_eq!(t.len(), 0);
}

#[test]
fn add_node_appends_in_order() {
    let mut t: Tree<u64> = Tree::new();
    let a = t.add_node(TreeNode::from_key(10));
    let b = t.add_node(TreeNode::from_key(20));
    assert_eq!(a, 0);
    assert_eq!(b, 1);
    assert_eq!(t.len(), 2);
    assert_eq!(t.node_at(0).unwrap().key, 10);
    assert_eq!(t.node_at(1).unwrap().key, 20);
    assert!(t.node_at(2).is_none());
}

#[test]
fn remove_undoes_the_last_insertion() {
    let mut t: Tree<u64> = Tree::new();
    let _ = t.add_node(TreeNode::from_key(10));
    let size_before = t.len();
    let idx = t.add_node(TreeNode::from_key(20));
    t.remove(idx);
    assert_eq!(t.len(), size_before);
    assert_eq!(t.node_at(0).unwrap().key, 10);
    assert!(t.node_at(1).is_none());
}

#[test]
fn set_children_updates_one_node() {
    let mut t: Tree<u64> = Tree::new();
    let p = t.add_node(TreeNode::from_key(1));
    let l = t.add_node(TreeNode::from_key(2));
    let r = t.add_node(TreeNode::from_key(3));
    t.set_left(p, Some(l));
    t.set_right(p, Some(r));
    assert_eq!(t.node_at(p).unwrap().left, Some(1));
    assert_eq!(t.node_at(p).unwrap().right, Some(2));
    assert!(t.node_at(l).unwrap().left.is_none());
    t.set_left(p, None);
    assert_eq!(t.node_at(p).unwrap().left, None);
    assert_eq!(t.node_at(p).unwrap().right, Some(2));
}

#[test]
fn add_value_inserts_only_parsed_tokens() {
    let mut t: Tree<u64> = Tree::new();
    assert_eq!(add_value(&DecimalParser, &mut t, "5"), Some(0));
    assert_eq!(add_value(&DecimalParser, &mut t, "#"), None);
    assert_eq!(add_value(&DecimalParser, &mut t, "6"), Some(1));
    assert_eq!(t.len(), 2);
    assert_eq!(t.node_at(0).unwrap().key, 5);
    assert_eq!(t.node_at(1).unwrap().key, 6);
}

#[test]
fn role_cursor_cycles_after_root() {
    let mut nt = NodeType::Root;
    nt = nt.next();
    assert!(nt == NodeType::LeftChild);
    nt = nt.next();
    assert!(nt == NodeType::RightChild);
    nt = nt.next();
    assert!(nt == NodeType::LeftChild);
    nt = nt.next();
    assert!(nt == NodeType::RightChild);
}
