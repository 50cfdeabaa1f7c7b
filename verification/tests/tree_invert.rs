use algokit::tree_invert::{invert, Node};

fn boxed(value: i32) -> Option<Box<Node>> {
    Some(Box::new(Node::new(value)))
}

#[test]
fn invert_test_empty_tree() {
    let mut tree: Option<Box<Node>> = None;
    invert(&mut tree);
    // Should not panic
    assert!(tree.is_none());
}

#[test]
fn invert_test_single_node() {
    let mut tree = boxed(1);
    invert(&mut tree);

    let root = tree.as_ref().unwrap();
    assert_eq!(root.value, 1);
    assert!(root.left.is_none());
    assert!(root.right.is_none());
}

#[test]
fn test_two_nodes_left_only() {
    let mut tree = boxed(1);
    tree.as_mut().unwrap().left = boxed(2);

    invert(&mut tree);

    let root = tree.as_ref().unwrap();
    assert_eq!(root.value, 1);
    assert!(root.left.is_none());
    assert!(root.right.is_some());
    assert_eq!(root.right.as_ref().unwrap().value, 2);
}

#[test]
fn test_two_nodes_right_only() {
    let mut tree = boxed(1);
    tree.as_mut().unwrap().right = boxed(3);

    invert(&mut tree);

    let root = tree.as_ref().unwrap();
    assert_eq!(root.value, 1);
    assert!(root.right.is_none());
    assert!(root.left.is_some());
    assert_eq!(root.left.as_ref().unwrap().value, 3);
}

#[test]
fn test_three_nodes() {
    let mut tree = boxed(1);
    tree.as_mut().unwrap().left = boxed(2);
    tree.as_mut().unwrap().right = boxed(3);

    invert(&mut tree);

    let root = tree.as_ref().unwrap();
    assert_eq!(root.value, 1);
    assert_eq!(root.left.as_ref().unwrap().value, 3);
    assert_eq!(root.right.as_ref().unwrap().value, 2);
}

#[test]
fn invert_test_complete_binary_tree() {
    let mut tree = boxed(1);
    {
        let root = tree.as_mut().unwrap();
        root.left = boxed(2);
        root.right = boxed(3);

        let left = root.left.as_mut().unwrap();
        left.left = boxed(4);
        left.right = boxed(5);

        let right = root.right.as_mut().unwrap();
        right.left = boxed(6);
        right.right = boxed(7);
    }

    invert(&mut tree);

    // Check root
    let root = tree.as_ref().unwrap();
    assert_eq!(root.value, 1);
    assert_eq!(root.left.as_ref().unwrap().value, 3);
    assert_eq!(root.right.as_ref().unwrap().value, 2);

    // Check left subtree (was right)
    let new_left = root.left.as_ref().unwrap();
    assert_eq!(new_left.left.as_ref().unwrap().value, 7);
    assert_eq!(new_left.right.as_ref().unwrap().value, 6);

    // Check right subtree (was left)
    let new_right = root.right.as_ref().unwrap();
    assert_eq!(new_right.left.as_ref().unwrap().value, 5);
    assert_eq!(new_right.right.as_ref().unwrap().value, 4);
}

#[test]
fn invert_test_left_skewed_tree() {
    let mut tree = boxed(1);
    {
        let root = tree.as_mut().unwrap();
        root.left = boxed(2);
        let left = root.left.as_mut().unwrap();
        left.left = boxed(3);
        let left_left = left.left.as_mut().unwrap();
        left_left.left = boxed(4);
    }

    invert(&mut tree);

    // After inversion, should be right-skewed
    let root = tree.as_ref().unwrap();
    assert_eq!(root.value, 1);
    assert!(root.left.is_none());
    assert!(root.right.is_some());

    let right = root.right.as_ref().unwrap();
    assert_eq!(right.value, 2);
    assert!(right.left.is_none());
    assert!(right.right.is_some());

    let right_right = right.right.as_ref().unwrap();
    assert_eq!(right_right.value, 3);
    assert!(right_right.left.is_none());
    assert!(right_right.right.is_some());
    assert_eq!(right_right.right.as_ref().unwrap().value, 4);
}

#[test]
fn invert_test_right_skewed_tree() {
    let mut tree = boxed(1);
    {
        let root = tree.as_mut().unwrap();
        root.right = boxed(2);
        let right = root.right.as_mut().unwrap();
        right.right = boxed(3);
    }

    invert(&mut tree);

    // After inversion, should be left-skewed
    let root = tree.as_ref().unwrap();
    assert_eq!(root.value, 1);
    assert!(root.right.is_none());
    assert!(root.left.is_some());

    let left = root.left.as_ref().unwrap();
    assert_eq!(left.value, 2);
    assert!(left.right.is_none());
    assert!(left.left.is_some());
    assert_eq!(left.left.as_ref().unwrap().value, 3);
}

#[test]
fn invert_test_unbalanced_tree() {
    let mut tree = boxed(1);
    {
        let root = tree.as_mut().unwrap();
        root.left = boxed(2);
        root.right = boxed(3);

        let left = root.left.as_mut().unwrap();
        left.left = boxed(4);
        left.right = boxed(5);

        let right = root.right.as_mut().unwrap();
        right.right = boxed(6);
    }

    invert(&mut tree);

    let root = tree.as_ref().unwrap();
    assert_eq!(root.value, 1);
    assert_eq!(root.left.as_ref().unwrap().value, 3);
    assert_eq!(root.right.as_ref().unwrap().value, 2);

    // Check new left (was right with only right child)
    let new_left = root.left.as_ref().unwrap();
    assert!(new_left.right.is_none());
    assert_eq!(new_left.left.as_ref().unwrap().value, 6);

    // Check new right (was left with both children)
    let new_right = root.right.as_ref().unwrap();
    assert_eq!(new_right.left.as_ref().unwrap().value, 5);
    assert_eq!(new_right.right.as_ref().unwrap().value, 4);
}

#[test]
fn test_double_invert() {
    let mut tree = boxed(1);
    {
        let root = tree.as_mut().unwrap();
        root.left = boxed(2);
        root.right = boxed(3);

        let left = root.left.as_mut().unwrap();
        left.left = boxed(4);
        left.right = boxed(5);
    }

    // Invert twice should return to original
    invert(&mut tree);
    invert(&mut tree);

    let root = tree.as_ref().unwrap();
    assert_eq!(root.value, 1);
    assert_eq!(root.left.as_ref().unwrap().value, 2);
    assert_eq!(root.right.as_ref().unwrap().value, 3);

    let left = root.left.as_ref().unwrap();
    assert_eq!(left.left.as_ref().unwrap().value, 4);
    assert_eq!(left.right.as_ref().unwrap().value, 5);
}

#[test]
fn test_negative_values() {
    let mut tree = boxed(-1);
    tree.as_mut().unwrap().left = boxed(-2);
    tree.as_mut().unwrap().right = boxed(-3);

    invert(&mut tree);

    let root = tree.as_ref().unwrap();
    assert_eq!(root.value, -1);
    assert_eq!(root.left.as_ref().unwrap().value, -3);
    assert_eq!(root.right.as_ref().unwrap().value, -2);
}
