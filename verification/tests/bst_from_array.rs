use algokit::bst_from_array::{sorted_array_to_bst, Node};

fn inorder(node: &Option<Box<Node>>, result: &mut Vec<i32>) {
    if let Some(n) = node {
        inorder(&n.left, result);
        result.push(n.value);
        inorder(&n.right, result);
    }
}

fn height(node: &Option<Box<Node>>) -> i32 {
    match node {
        None => 0,
        Some(n) => 1 + height(&n.left).max(height(&n.right)),
    }
}

#[test]
fn test_empty_array() {
    let result = sorted_array_to_bst(vec![]);
    assert!(result.is_none());
}

#[test]
fn test_single_element() {
    let result = sorted_array_to_bst(vec![1]);
    assert!(result.is_some());
    let node = result.unwrap();
    assert_eq!(node.value, 1);
    assert!(node.left.is_none());
    assert!(node.right.is_none());
}

#[test]
fn test_two_elements() {
    let result = sorted_array_to_bst(vec![1, 2]);
    assert!(result.is_some());
    let mut values = Vec::new();
    inorder(&result, &mut values);
    assert_eq!(values, vec![1, 2]);
}

#[test]
fn test_preserves_sorted_order() {
    let nums = vec![1, 2, 4, 5, 7, 8, 10];
    let result = sorted_array_to_bst(nums.clone());
    let mut values = Vec::new();
    inorder(&result, &mut values);
    assert_eq!(values, nums);
}

#[test]
fn test_balanced_tree() {
    let nums = vec![1, 2, 3, 4, 5, 6, 7];
    let result = sorted_array_to_bst(nums);
    assert!(result.is_some());
    let root = result.unwrap();
    let left_height = height(&root.left);
    let right_height = height(&root.right);
    assert!((left_height - right_height).abs() <= 1);
}

#[test]
fn test_root_is_middle() {
    let nums = vec![1, 2, 3, 4, 5];
    let result = sorted_array_to_bst(nums);
    assert_eq!(result.unwrap().value, 3);
}
