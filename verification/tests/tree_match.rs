use algokit::tree_match::{matching, Node};

fn boxed(value: i32) -> Option<Box<Node>> {
    Some(Box::new(Node::new(value)))
}

#[test]
fn test_both_empty() {
    let result = matching(None, None);
    assert_eq!(result, true);
}

#[test]
fn test_first_empty_second_not() {
    let b = Node::new(1);
    let result = matching(None, Some(&b));
    assert_eq!(result, false);
}

#[test]
fn test_second_empty_first_not() {
    let a = Node::new(1);
    let result = matching(Some(&a), None);
    assert_eq!(result, false);
}

#[test]
fn test_single_nodes_matching() {
    let a = Node::new(5);
    let b = Node::new(5);
    let result = matching(Some(&a), Some(&b));
    assert_eq!(result, true);
}

#[test]
fn test_single_nodes_not_matching() {
    let a = Node::new(5);
    let b = Node::new(10);
    let result = matching(Some(&a), Some(&b));
    assert_eq!(result, false);
}

#[test]
fn test_identical_trees_two_levels() {
    let mut a = Node::new(1);
    a.left = boxed(2);
    a.right = boxed(3);

    let mut b = Node::new(1);
    b.left = boxed(2);
    b.right = boxed(3);

    let result = matching(Some(&a), Some(&b));
    assert_eq!(result, true);
}

#[test]
fn test_different_root_values() {
    let mut a = Node::new(1);
    a.left = boxed(2);
    a.right = boxed(3);

    let mut b = Node::new(10);
    b.left = boxed(2);
    b.right = boxed(3);

    let result = matching(Some(&a), Some(&b));
    assert_eq!(result, false);
}

#[test]
fn test_different_left_child() {
    let mut a = Node::new(1);
    a.left = boxed(2);
    a.right = boxed(3);

    let mut b = Node::new(1);
    b.left = boxed(5);
    b.right = boxed(3);

    let result = matching(Some(&a), Some(&b));
    assert_eq!(result, false);
}

#[test]
fn test_different_right_child() {
    let mut a = Node::new(1);
    a.left = boxed(2);
    a.right = boxed(3);

    let mut b = Node::new(1);
    b.left = boxed(2);
    b.right = boxed(7);

    let result = matching(Some(&a), Some(&b));
    assert_eq!(result, false);
}

#[test]
fn test_one_has_left_child_other_doesnt() {
    let mut a = Node::new(1);
    a.left = boxed(2);

    let b = Node::new(1);

    let result = matching(Some(&a), Some(&b));
    assert_eq!(result, false);
}

#[test]
fn test_one_has_right_child_other_doesnt() {
    let mut a = Node::new(1);
    a.right = boxed(3);

    let b = Node::new(1);

    let result = matching(Some(&a), Some(&b));
    assert_eq!(result, false);
}

#[test]
fn test_identical_complete_tree() {
    let mut a = Node::new(1);
    a.left = boxed(2);
    a.right = boxed(3);

    let a_left = a.left.as_mut().unwrap();
    a_left.left = boxed(4);
    a_left.right = boxed(5);

    let a_right = a.right.as_mut().unwrap();
    a_right.left = boxed(6);
    a_right.right = boxed(7);

    let mut b = Node::new(1);
    b.left = boxed(2);
    b.right = boxed(3);

    let b_left = b.left.as_mut().unwrap();
    b_left.left = boxed(4);
    b_left.right = boxed(5);

    let b_right = b.right.as_mut().unwrap();
    b_right.left = boxed(6);
    b_right.right = boxed(7);

    let result = matching(Some(&a), Some(&b));
    assert_eq!(result, true);
}

#[test]
fn test_deep_difference() {
    let mut a = Node::new(1);
    a.left = boxed(2);
    a.right = boxed(3);

    let a_left = a.left.as_mut().unwrap();
    a_left.left = boxed(4);
    a_left.right = boxed(5);

    let mut b = Node::new(1);
    b.left = boxed(2);
    b.right = boxed(3);

    let b_left = b.left.as_mut().unwrap();
    b_left.left = boxed(4);
    b_left.right = boxed(99);

    let result = matching(Some(&a), Some(&b));
    assert_eq!(result, false);
}

#[test]
fn test_left_skewed_identical() {
    let mut a = Node::new(1);
    a.left = boxed(2);

    let a_left = a.left.as_mut().unwrap();
    a_left.left = boxed(3);

    let a_left_left = a_left.left.as_mut().unwrap();
    a_left_left.left = boxed(4);

    let mut b = Node::new(1);
    b.left = boxed(2);

    let b_left = b.left.as_mut().unwrap();
    b_left.left = boxed(3);

    let b_left_left = b_left.left.as_mut().unwrap();
    b_left_left.left = boxed(4);

    let result = matching(Some(&a), Some(&b));
    assert_eq!(result, true);
}

#[test]
fn test_right_skewed_identical() {
    let mut a = Node::new(1);
    a.right = boxed(2);

    let a_right = a.right.as_mut().unwrap();
    a_right.right = boxed(3);

    let mut b = Node::new(1);
    b.right = boxed(2);

    let b_right = b.right.as_mut().unwrap();
    b_right.right = boxed(3);

    let result = matching(Some(&a), Some(&b));
    assert_eq!(result, true);
}

#[test]
fn test_negative_values_matching() {
    let mut a = Node::new(-5);
    a.left = boxed(-10);
    a.right = boxed(-3);

    let mut b = Node::new(-5);
    b.left = boxed(-10);
    b.right = boxed(-3);

    let result = matching(Some(&a), Some(&b));
    assert_eq!(result, true);
}
