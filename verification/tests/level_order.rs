use algokit::level_order::{order_traversal, Node};

fn boxed(value: i32) -> Option<Box<Node>> {
    Some(Box::new(Node::new(value)))
}

#[test]
fn lib_test_single_node() {
    let root = Node::new(1);
    let result = order_traversal(root);
    assert_eq!(result, vec![vec![1]]);
}

#[test]
fn lib_test_two_levels() {
    let mut root = Node::new(1);
    root.left = boxed(2);
    root.right = boxed(3);

    let result = order_traversal(root);
    assert_eq!(result, vec![vec![1], vec![2, 3]]);
}

#[test]
fn test_three_levels_complete() {
    let mut root = Node::new(1);
    root.left = boxed(2);
    root.right = boxed(3);

    let left = root.left.as_mut().unwrap();
    left.left = boxed(4);
    left.right = boxed(5);

    let right = root.right.as_mut().unwrap();
    right.left = boxed(6);
    right.right = boxed(7);

    let result = order_traversal(root);
    assert_eq!(result, vec![vec![1], vec![2, 3], vec![4, 5, 6, 7]]);
}

#[test]
fn lib_test_left_skewed_tree() {
    let mut root = Node::new(1);
    root.left = boxed(2);

    let left = root.left.as_mut().unwrap();
    left.left = boxed(3);

    let left_left = left.left.as_mut().unwrap();
    left_left.left = boxed(4);

    let result = order_traversal(root);
    assert_eq!(result, vec![vec![1], vec![2], vec![3], vec![4]]);
}

#[test]
fn lib_test_right_skewed_tree() {
    let mut root = Node::new(1);
    root.right = boxed(2);

    let right = root.right.as_mut().unwrap();
    right.right = boxed(3);

    let right_right = right.right.as_mut().unwrap();
    right_right.right = boxed(4);

    let result = order_traversal(root);
    assert_eq!(result, vec![vec![1], vec![2], vec![3], vec![4]]);
}

#[test]
fn lib_test_unbalanced_tree() {
    let mut root = Node::new(1);
    root.left = boxed(2);
    root.right = boxed(3);

    let left = root.left.as_mut().unwrap();
    left.left = boxed(4);
    left.right = boxed(5);

    let left_right = left.right.as_mut().unwrap();
    left_right.left = boxed(6);

    let result = order_traversal(root);
    assert_eq!(result, vec![vec![1], vec![2, 3], vec![4, 5], vec![6]]);
}
