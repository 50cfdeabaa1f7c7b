//! The largest value stored in a binary tree.

use vstd::prelude::*;

verus! {

pub struct Node {
    pub value: i32,
    pub left: Option<Box<Node>>,
    pub right: Option<Box<Node>>,
}

impl Node {
    pub fn new(value: i32) -> (n: Node)
        ensures
            n.value == value,
            n.left.is_none(),
            n.right.is_none(),
    {
        Node { value, left: None, right: None }
    }
}

/// The largest value in an optional subtree; an empty tree yields `i32::MIN`.
pub open spec fn tree_max(t: Option<Box<Node>>) -> i32
    decreases t,
{
    match t {
        None => i32::MIN,
        Some(n) => {
            let l = tree_max(n.left);
            let r = tree_max(n.right);
            let c = if l >= r {
                l
            } else {
                r
            };
            if n.value >= c {
                n.value
            } else {
                c
            }
        },
    }
}

/// The largest value under an optional root reference.
pub open spec fn max_of(root: Option<&Node>) -> i32 {
    match root {
        None => i32::MIN,
        Some(n) => {
            let l = tree_max(n.left);
            let r = tree_max(n.right);
            let c = if l >= r {
                l
            } else {
                r
            };
            if n.value >= c {
                n.value
            } else {
                c
            }
        },
    }
}

/// Returns the largest value in the tree, or `i32::MIN` for an empty tree.
pub fn find_max(node: Option<&Node>) -> (r: i32)
    ensures
        r == max_of(node),
{
    let node = match node {
        Some(node) => node,
        None => return i32::MIN,
    };
    subtree_max(node)
}

fn subtree_max(n: &Node) -> (r: i32)
    ensures
        r == max_of(Some(n)),
    decreases *n,
{
    let left = match &n.left {
        Some(b) => subtree_max(&**b),
        None => i32::MIN,
    };
    let right = match &n.right {
        Some(b) => subtree_max(&**b),
        None => i32::MIN,
    };
    let child_max = if left >= right {
        left
    } else {
        right
    };
    if n.value >= child_max {
        n.value
    } else {
        child_max
    }
}

} // verus!
