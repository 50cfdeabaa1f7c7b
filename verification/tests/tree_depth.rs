use algokit::tree_depth::{max_depth, Node};

#[test]
fn test_max_depth_single_node() {
    let root = Node::new(1);
    let max = max_depth(&root, 0);
    assert_eq!(max, 1);
}

#[test]
fn test_max_depth_two_levels() {
    let mut root = Node::new(1);
    root.set_left(Node::new(2));
    root.set_right(Node::new(3));

    let max = max_depth(&root, 0);
    assert_eq!(max, 2);
}

#[test]
fn test_max_depth_left_skewed() {
    let mut root = Node::new(1);
    let mut left = Node::new(2);
    left.set_left(Node::new(3));
    root.set_left(left);

    let max = max_depth(&root, 0);
    assert_eq!(max, 3);
}

#[test]
fn test_max_depth_right_skewed() {
    let mut root = Node::new(1);
    let mut right = Node::new(2);
    right.set_right(Node::new(3));
    root.set_right(right);

    let max = max_depth(&root, 0);
    assert_eq!(max, 3);
}

#[test]
fn test_max_depth_unbalanced_tree() {
    let mut root = Node::new(1);

    // Left subtree: depth 2
    let mut left = Node::new(2);
    left.set_left(Node::new(4));
    root.set_left(left);

    // Right subtree: depth 4
    let mut right = Node::new(3);
    let mut right_left = Node::new(5);
    let mut right_left_left = Node::new(6);
    right_left_left.set_left(Node::new(7));
    right_left.set_left(right_left_left);
    right.set_left(right_left);
    root.set_right(right);

    let max = max_depth(&root, 0);
    assert_eq!(max, 5);
}

#[test]
fn test_max_depth_complete_binary_tree() {
    let mut root = Node::new(1);

    // Level 2
    let mut left = Node::new(2);
    let mut right = Node::new(3);

    // Level 3
    left.set_left(Node::new(4));
    left.set_right(Node::new(5));
    right.set_left(Node::new(6));
    right.set_right(Node::new(7));

    root.set_left(left);
    root.set_right(right);

    let max = max_depth(&root, 0);
    assert_eq!(max, 3);
}

#[test]
fn test_max_depth_only_left_child() {
    let mut root = Node::new(1);
    root.set_left(Node::new(2));

    let max = max_depth(&root, 0);
    assert_eq!(max, 2);
}

#[test]
fn test_max_depth_only_right_child() {
    let mut root = Node::new(1);
    root.set_right(Node::new(2));

    let max = max_depth(&root, 0);
    assert_eq!(max, 2);
}

#[test]
fn test_max_depth_deep_tree() {
    let mut root = Node::new(1);
    let mut n2 = Node::new(2);
    let mut n3 = Node::new(3);
    let mut n4 = Node::new(4);
    let mut n5 = Node::new(5);
    let n6 = Node::new(6);

    n5.set_left(n6);
    n4.set_right(n5);
    n3.set_left(n4);
    n2.set_right(n3);
    root.set_left(n2);

    let max = max_depth(&root, 0);
    assert_eq!(max, 6);
}
