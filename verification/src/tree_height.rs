//! The height of a binary tree: the number of nodes on a longest
//! root-to-leaf path.

use vstd::prelude::*;

verus! {

pub struct Node {
    pub value: i32,
    pub left: Option<Box<Node>>,
    pub right: Option<Box<Node>>,
}

impl Node {
    pub fn new(value: i32) -> (n: Node)
        ensures
            n.value == value,
            n.left.is_none(),
            n.right.is_none(),
    {
        Node { value, left: None, right: None }
    }
}

/// The height of an optional subtree: an empty tree has height 0.
pub open spec fn tree_height(t: Option<Box<Node>>) -> nat
    decreases t,
{
    match t {
        None => 0,
        Some(n) => 1 + if tree_height(n.left) >= tree_height(n.right) {
            tree_height(n.left)
        } else {
            tree_height(n.right)
        },
    }
}

/// The height of the tree under an optional root reference.
pub open spec fn height_of(root: Option<&Node>) -> nat {
    match root {
        None => 0,
        Some(n) => 1 + if tree_height(n.left) >= tree_height(n.right) {
            tree_height(n.left)
        } else {
            tree_height(n.right)
        },
    }
}

/// Returns the height of the tree.
pub fn find_height(root: Option<&Node>) -> (r: usize)
    requires
        height_of(root) <= usize::MAX,
    ensures
        r == height_of(root),
{
    let root = match root {
        Some(root) => root,
        None => return 0,
    };
    subtree_height(root)
}

fn subtree_height(n: &Node) -> (r: usize)
    requires
        height_of(Some(n)) <= usize::MAX,
    ensures
        r == height_of(Some(n)),
    decreases *n,
{
    let left = match &n.left {
        Some(b) => subtree_height(&**b),
        None => 0,
    };
    let right = match &n.right {
        Some(b) => subtree_height(&**b),
        None => 0,
    };
    if left >= right {
        left + 1
    } else {
        right + 1
    }
}

} // verus!
