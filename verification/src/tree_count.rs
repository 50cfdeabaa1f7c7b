//! Counting the nodes of a binary tree.

use vstd::prelude::*;

verus! {

pub struct Node {
    pub value: i32,
    pub left: Option<Box<Node>>,
    pub right: Option<Box<Node>>,
}

impl Node {
    pub fn new(value: i32) -> (n: Node)
        ensures
            n.value == value,
            n.left.is_none(),
            n.right.is_none(),
    {
        Node { value, left: None, right: None }
    }
}

/// The number of nodes in an optional subtree.
pub open spec fn tree_count(t: Option<Box<Node>>) -> nat
    decreases t,
{
    match t {
        None => 0,
        Some(n) => 1 + tree_count(n.left) + tree_count(n.right),
    }
}

/// The number of nodes reachable from an optional root reference.
pub open spec fn count_of(root: Option<&Node>) -> nat {
    match root {
        None => 0,
        Some(n) => 1 + tree_count(n.left) + tree_count(n.right),
    }
}

/// Returns the total number of nodes in the tree.
pub fn find_total_nodes(root: Option<&Node>) -> (r: usize)
    requires
        count_of(root) <= usize::MAX,
    ensures
        r == count_of(root),
{
    let root = match root {
        Some(root) => root,
        None => return 0,
    };
    subtree_nodes(root)
}

fn subtree_nodes(n: &Node) -> (r: usize)
    requires
        1 + tree_count(n.left) + tree_count(n.right) <= usize::MAX,
    ensures
        r == 1 + tree_count(n.left) + tree_count(n.right),
    decreases *n,
{
    let left = match &n.left {
        Some(b) => subtree_nodes(&**b),
        None => 0,
    };
    let right = match &n.right {
        Some(b) => subtree_nodes(&**b),
        None => 0,
    };
    left + right + 1
}

} // verus!
