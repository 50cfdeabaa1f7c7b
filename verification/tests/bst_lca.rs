use algokit::bst_lca::{lca, Node};

// Helper to build a BST:
//        6
//       / \
//      2   8
//     / \ / \
//    0  4 7  9
//      / \
//     3   5
fn build_test_tree() -> Node {
    let mut root = Node::new(6);
    let mut n2 = Node::new(2);
    let mut n8 = Node::new(8);
    let n0 = Node::new(0);
    let mut n4 = Node::new(4);
    let n7 = Node::new(7);
    let n9 = Node::new(9);
    let n3 = Node::new(3);
    let n5 = Node::new(5);

    n4.left = Some(Box::new(n3));
    n4.right = Some(Box::new(n5));
    n2.left = Some(Box::new(n0));
    n2.right = Some(Box::new(n4));
    n8.left = Some(Box::new(n7));
    n8.right = Some(Box::new(n9));
    root.left = Some(Box::new(n2));
    root.right = Some(Box::new(n8));

    root
}

#[test]
fn test_lca_different_subtrees() {
    let root = build_test_tree();
    let result = lca(Some(&root), 2, 8);
    assert_eq!(result.unwrap().value, 6);
}

#[test]
fn test_lca_same_subtree_left() {
    let root = build_test_tree();
    let result = lca(Some(&root), 0, 4);
    assert_eq!(result.unwrap().value, 2);
}

#[test]
fn test_lca_same_subtree_right() {
    let root = build_test_tree();
    let result = lca(Some(&root), 7, 9);
    assert_eq!(result.unwrap().value, 8);
}

#[test]
fn test_lca_one_is_ancestor() {
    let root = build_test_tree();
    let result = lca(Some(&root), 2, 4);
    assert_eq!(result.unwrap().value, 2);
}

#[test]
fn test_lca_deep_nodes() {
    let root = build_test_tree();
    let result = lca(Some(&root), 3, 5);
    assert_eq!(result.unwrap().value, 4);
}

#[test]
fn test_lca_with_root() {
    let root = build_test_tree();
    let result = lca(Some(&root), 0, 9);
    assert_eq!(result.unwrap().value, 6);
}

#[test]
fn test_lca_empty_tree() {
    let result = lca(None, 1, 2);
    assert!(result.is_none());
}

#[test]
fn test_lca_reversed_order() {
    let root = build_test_tree();
    let result = lca(Some(&root), 8, 2);
    assert_eq!(result.unwrap().value, 6);
}

#[test]
fn test_lca_safe_absent_value() {
    let root = build_test_tree();
    let result = algokit::bst_lca::lca_safe(Some(&root), 2, 42);
    assert!(result.is_none());
}

#[test]
fn test_lca_safe_both_present() {
    let root = build_test_tree();
    let result = algokit::bst_lca::lca_safe(Some(&root), 3, 5);
    assert_eq!(result.unwrap().value, 4);
}

#[test]
fn test_lca_search() {
    let root = build_test_tree();
    assert!(algokit::bst_lca::search(Some(&root), 7));
    assert!(!algokit::bst_lca::search(Some(&root), 1));
    assert!(!algokit::bst_lca::search(None, 6));
}
