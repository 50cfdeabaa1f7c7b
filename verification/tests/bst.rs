use algokit::bst::{insert, search, Node};

fn build_tree(values: &[i32]) -> Node {
    let mut root = Node::new(values[0]);
    for &value in &values[1..] {
        insert(&mut root, value);
    }
    root
}

#[test]
fn inserts_left_and_right_children() {
    let mut root = Node::new(10);

    insert(&mut root, 5);
    insert(&mut root, 15);

    let left_child = root.left.as_ref().expect("left child should exist");
    let right_child = root.right.as_ref().expect("right child should exist");

    assert_eq!(left_child.value, 5);
    assert_eq!(right_child.value, 15);
}

#[test]
fn inserts_duplicates_to_left_subtree() {
    let mut root = Node::new(20);

    insert(&mut root, 20);
    insert(&mut root, 20);

    let left = root.left.as_ref().expect("first duplicate should be on the left");
    let left_left = left.left.as_ref().expect("second duplicate should go further left");

    assert_eq!(left.value, 20);
    assert_eq!(left_left.value, 20);
}

#[test]
fn inserts_recursively_into_subtrees() {
    let mut root = Node::new(8);

    insert(&mut root, 3);
    insert(&mut root, 1);
    insert(&mut root, 6);
    insert(&mut root, 4);

    let left = root.left.as_ref().expect("left child missing");
    let right_of_left = left.right.as_ref().expect("right child of left subtree missing");

    assert_eq!(left.value, 3);
    assert_eq!(right_of_left.value, 6);
    assert_eq!(
        right_of_left.left.as_ref().expect("left child of node value 6 missing").value,
        4
    );
}

#[test]
fn finds_existing_values() {
    let root = build_tree(&[10, 5, 15, 3, 7, 12, 18]);

    assert!(search(Some(Box::new(root.clone())), 10));
    assert!(search(Some(Box::new(root.clone())), 3));
    assert!(search(Some(Box::new(root)), 18));
}

#[test]
fn returns_false_for_missing_value() {
    let root = build_tree(&[8, 4, 12, 2, 6, 10, 14]);

    assert!(!search(Some(Box::new(root.clone())), 5));
    assert!(!search(Some(Box::new(root.clone())), 13));
    assert!(!search(Some(Box::new(root)), 1));
}

#[test]
fn returns_false_for_empty_tree() {
    assert!(!search(None, 42));
}
