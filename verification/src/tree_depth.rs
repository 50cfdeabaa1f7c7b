//! Depth-first computation of a binary tree's maximum depth, for a node
//! type whose children are attached through dedicated methods.

use vstd::prelude::*;

verus! {

pub struct Node {
    pub value: i32,
    pub left: Option<Box<Node>>,
    pub right: Option<Box<Node>>,
}

/// The maximum depth of an optional subtree: an empty tree has depth 0.
pub open spec fn depth(t: Option<Box<Node>>) -> nat
    decreases t,
{
    match t {
        None => 0,
        Some(n) => 1 + if depth(n.left) >= depth(n.right) {
            depth(n.left)
        } else {
            depth(n.right)
        },
    }
}

impl Node {
    /// The maximum depth of the tree rooted at this node.
    pub open spec fn spec_depth(self) -> nat {
        1 + if depth(self.left) >= depth(self.right) {
            depth(self.left)
        } else {
            depth(self.right)
        }
    }

    pub fn new(value: i32) -> (n: Node)
        ensures
            n.value == value,
            n.left.is_none(),
            n.right.is_none(),
    {
        Node { value, left: None, right: None }
    }

    pub fn set_left(&mut self, node: Node)
        ensures
            final(self).value == old(self).value,
            final(self).left matches Some(b) && *b == node,
            final(self).right == old(self).right,
    {
        self.left = Some(Box::new(node));
    }

    pub fn set_right(&mut self, node: Node)
        ensures
            final(self).value == old(self).value,
            final(self).left == old(self).left,
            final(self).right matches Some(b) && *b == node,
    {
        self.right = Some(Box::new(node));
    }
}

/// Returns the maximum depth of the tree rooted at `root`. The second
/// argument is carried along unused, as a starting offset that the
/// computation never consults.
pub fn max_depth(root: &Node, start: i32) -> (r: i32)
    requires
        root.spec_depth() <= i32::MAX,
    ensures
        r == root.spec_depth(),
    decreases *root,
{
    let left_depth = match &root.left {
        Some(node) => max_depth(&**node, start),
        None => 0,
    };
    let right_depth = match &root.right {
        Some(node) => max_depth(&**node, start),
        None => 0,
    };
    if right_depth > left_depth {
        right_depth + 1
    } else {
        left_depth + 1
    }
}

} // verus!
