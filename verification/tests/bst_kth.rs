use algokit::bst_kth::{find_lowest_kth, Node};

fn insert(root: &mut Option<Box<Node>>, value: i32) {
    match root {
        None => *root = Some(Box::new(Node::new(value))),
        Some(node) => {
            if value < node.value {
                insert(&mut node.left, value);
            } else {
                insert(&mut node.right, value);
            }
        }
    }
}

fn build_bst(values: &[i32]) -> Option<Box<Node>> {
    let mut root = None;
    for &v in values {
        insert(&mut root, v);
    }
    root
}

#[test]
fn test_find_1st_smallest() {
    let root = build_bst(&[5, 3, 7, 2, 4, 6, 8]);
    assert_eq!(find_lowest_kth(root, 1), Some(2));
}

#[test]
fn test_find_3rd_smallest() {
    let root = build_bst(&[5, 3, 7, 2, 4, 6, 8]);
    assert_eq!(find_lowest_kth(root, 3), Some(4));
}

#[test]
fn test_find_last_element() {
    let root = build_bst(&[5, 3, 7, 2, 4, 6, 8]);
    assert_eq!(find_lowest_kth(root, 7), Some(8));
}

#[test]
fn test_k_exceeds_size() {
    let root = build_bst(&[5, 3, 7]);
    assert_eq!(find_lowest_kth(root, 10), None);
}

#[test]
fn lib_test_empty_tree() {
    assert_eq!(find_lowest_kth(None, 1), None);
}

#[test]
fn test_single_node() {
    let root = build_bst(&[42]);
    assert_eq!(find_lowest_kth(root, 1), Some(42));
}

#[test]
fn test_left_skewed_tree() {
    let root = build_bst(&[5, 4, 3, 2, 1]);
    assert_eq!(find_lowest_kth(root, 3), Some(3));
}

#[test]
fn test_right_skewed_tree() {
    let root = build_bst(&[1, 2, 3, 4, 5]);
    assert_eq!(find_lowest_kth(root, 4), Some(4));
}

#[test]
fn test_k_zero() {
    let root = build_bst(&[5, 3, 7]);
    assert_eq!(find_lowest_kth(root, 0), None);
}

#[test]
fn lib_test_negative_values() {
    let root = build_bst(&[0, -5, 5, -10, -3, 3, 10]);
    assert_eq!(find_lowest_kth(root, 1), Some(-10));
    let root2 = build_bst(&[0, -5, 5, -10, -3, 3, 10]);
    assert_eq!(find_lowest_kth(root2, 4), Some(0));
}
