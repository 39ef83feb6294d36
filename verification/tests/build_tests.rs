use level_tree::{build, BuildTreeInLevel, DecimalParser, Tree, TreeBuilder};

fn build_u64(tokens: &[&str]) -> Tree<u64> {
    build(&DecimalParser, tokens)
}

#[test]
fn empty_input_gives_empty_tree() {
    let t = build_u64(&[]);
    assert!(t.root.is_none());
    assert_eq!(t.nodes.len(), 0);
}

#[test]
fn sentinel_only_input_gives_empty_arena() {
    let t = build_u64(&["#"]);
    assert!(t.root.is_none());
    assert_eq!(t.nodes.len(), 0);

    let t = build_u64(&["#", "#", "#"]);
    assert!(t.root.is_none());
    assert_eq!(t.nodes.len(), 0);
}

#[test]
fn single_value_token_gives_one_node() {
    let t = build_u64(&["5"]);
    assert_eq!(t.root, Some(0));
    assert_eq!(t.nodes.len(), 1);
    assert_eq!(t.nodes[0].key, 5);
    assert!(t.nodes[0].left.is_none());
    assert!(t.nodes[0].right.is_none());
}

#[test]
fn trailing_sentinels_change_nothing() {
    let plain = build_u64(&["5"]);
    let padded = build_u64(&["5", "#", "#", "#", "#"]);
    assert_eq!(plain.root, padded.root);
    assert_eq!(plain.nodes.len(), padded.nodes.len());
    assert_eq!(plain.nodes[0].key, padded.nodes[0].key);
    assert_eq!(plain.nodes[0].left, padded.nodes[0].left);
    assert_eq!(plain.nodes[0].right, padded.nodes[0].right);
}

#[test]
fn full_example() {
    // {1, #, 2, 3}: a root with only a right child, which has only a
    // left child.
    let t = build_u64(&["1", "#", "2", "3"]);
    assert_eq!(t.root, Some(0));
    assert_eq!(t.nodes.len(), 3);
    assert_eq!(t.nodes[0].key, 1);
    assert_eq!(t.nodes[0].left, None);
    assert_eq!(t.nodes[0].right, Some(1));
    assert_eq!(t.nodes[1].key, 2);
    assert_eq!(t.nodes[1].left, Some(2));
    assert_eq!(t.nodes[1].right, None);
    assert_eq!(t.nodes[2].key, 3);
    assert_eq!(t.nodes[2].left, None);
    assert_eq!(t.nodes[2].right, None);
}

#[test]
fn complete_two_levels() {
    let t = build_u64(&["1", "2", "3"]);
    assert_eq!(t.root, Some(0));
    assert_eq!(t.nodes.len(), 3);
    assert_eq!(t.nodes[0].left, Some(1));
    assert_eq!(t.nodes[0].right, Some(2));
    assert_eq!(t.nodes[1].key, 2);
    assert_eq!(t.nodes[2].key, 3);
}

#[test]
fn deeper_tree_with_mixed_sentinels() {
    let t = build_u64(&["1", "2", "3", "4", "#", "#", "5"]);
    assert_eq!(t.root, Some(0));
    assert_eq!(t.nodes.len(), 5);
    assert_eq!(t.nodes[0].key, 1);
    assert_eq!(t.nodes[0].left, Some(1));
    assert_eq!(t.nodes[0].right, Some(2));
    assert_eq!(t.nodes[1].key, 2);
    assert_eq!(t.nodes[1].left, Some(3));
    assert_eq!(t.nodes[1].right, None);
    assert_eq!(t.nodes[2].key, 3);
    assert_eq!(t.nodes[2].left, None);
    assert_eq!(t.nodes[2].right, Some(4));
    assert_eq!(t.nodes[3].key, 4);
    assert_eq!(t.nodes[4].key, 5);
}

#[test]
fn arena_size_equals_parsed_token_count() {
    // every token that parses creates exactly one node, sentinels none
    let t = build_u64(&["7", "8", "9"]);
    assert_eq!(t.nodes.len(), 3);
    let t = build_u64(&["7", "#", "9", "#", "#"]);
    assert_eq!(t.nodes.len(), 2);
}

#[test]
fn value_token_after_null_root_is_dropped() {
    // the root fails to parse, so the later value token can never find
    // a parent: the engine rolls its node back and stops
    let t = build_u64(&["#", "1"]);
    assert!(t.root.is_none());
    assert_eq!(t.nodes.len(), 0);
}

#[test]
fn unattachable_trailing_value_is_rolled_back() {
    // "2" arrives once the tree shape is complete: its node is
    // inserted, rolled back, and the arena size is restored
    let t = build_u64(&["1", "#", "#", "2"]);
    assert_eq!(t.root, Some(0));
    assert_eq!(t.nodes.len(), 1);
    assert_eq!(t.nodes[0].key, 1);
    assert!(t.nodes[0].left.is_none());
    assert!(t.nodes[0].right.is_none());
}

#[test]
fn build_in_level_matches_build() {
    let a = build_u64(&["1", "#", "2", "3"]);
    let b: Tree<u64> =
        <TreeBuilder as BuildTreeInLevel<u64, DecimalParser>>::build_in_level(
            &DecimalParser,
            &["1", "#", "2", "3"],
        );
    assert_eq!(a.root, b.root);
    assert_eq!(a.nodes.len(), b.nodes.len());
    for i in 0..a.nodes.len() {
        assert_eq!(a.nodes[i].key, b.nodes[i].key);
        assert_eq!(a.nodes[i].left, b.nodes[i].left);
        assert_eq!(a.nodes[i].right, b.nodes[i].right);
    }
}

#[test]
fn no_index_is_child_of_two_slots() {
    let cases: &[&[&str]] = &[
        &["1", "#", "2", "3"],
        &["1", "2", "3", "4", "#", "#", "5"],
        &["1", "2", "3", "4", "5", "6", "7", "8"],
        &["#", "1"],
        &["1", "#", "#", "2"],
    ];
    for tokens in cases {
        let t = build_u64(tokens);
        let mut seen = vec![false; t.nodes.len()];
        for n in &t.nodes {
            for child in [n.left, n.right] {
                if let Some(c) = child {
                    assert!(!seen[c], "index {} attached twice", c);
                    seen[c] = true;
                }
            }
        }
        // every non-root node is attached exactly once
        for i in 0..t.nodes.len() {
            assert!(seen[i] || t.root == Some(i));
        }
    }
}
