//! Deciding whether two binary trees have the same shape and values.

use vstd::prelude::*;

verus! {

pub struct Node {
    pub value: i32,
    pub left: Option<Box<Node>>,
    pub right: Option<Box<Node>>,
}

impl Node {
    pub fn new(value: i32) -> (n: Node)
        ensures
            n.value == value,
            n.left.is_none(),
            n.right.is_none(),
    {
        Node { value, left: None, right: None }
    }
}

/// Two optional subtrees are identical: same shape, same value at every node.
pub open spec fn same_tree(a: Option<Box<Node>>, b: Option<Box<Node>>) -> bool
    decreases a,
{
    match (a, b) {
        (None, None) => true,
        (Some(x), Some(y)) => x.value == y.value && same_tree(x.left, y.left) && same_tree(
            x.right,
            y.right,
        ),
        _ => false,
    }
}

/// Whether the trees under two optional root references are identical.
pub open spec fn same_of(a: Option<&Node>, b: Option<&Node>) -> bool {
    match (a, b) {
        (None, None) => true,
        (Some(x), Some(y)) => x.value == y.value && same_tree(x.left, y.left) && same_tree(
            x.right,
            y.right,
        ),
        _ => false,
    }
}

/// Returns whether the two trees have the same shape and the same values.
pub fn matching(a: Option<&Node>, b: Option<&Node>) -> (r: bool)
    ensures
        r == same_of(a, b),
{
    let (a, b) = if a.is_none() && b.is_none() {
        return true;
    } else if a.is_none() || b.is_none() {
        return false;
    } else {
        (a.unwrap(), b.unwrap())
    };
    nodes_match(a, b)
}

fn nodes_match(a: &Node, b: &Node) -> (r: bool)
    ensures
        r == same_of(Some(a), Some(b)),
    decreases *a,
{
    if a.value != b.value {
        return false;
    }
    let left = match (&a.left, &b.left) {
        (None, None) => true,
        (Some(x), Some(y)) => nodes_match(&**x, &**y),
        _ => false,
    };
    let right = match (&a.right, &b.right) {
        (None, None) => true,
        (Some(x), Some(y)) => nodes_match(&**x, &**y),
        _ => false,
    };
    left && right
}

} // verus!
