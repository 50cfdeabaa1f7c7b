//! Mirroring a binary tree in place: every node's children are swapped.

use vstd::prelude::*;

verus! {

pub struct Node {
    pub value: i32,
    pub left: Option<Box<Node>>,
    pub right: Option<Box<Node>>,
}

impl Node {
    pub fn new(value: i32) -> (n: Node)
        ensures
            n.value == value,
            n.left.is_none(),
            n.right.is_none(),
    {
        Node { value, left: None, right: None }
    }
}

/// `b` is the mirror image of `a`: same values, with every node's left and
/// right subtrees exchanged.
pub open spec fn is_mirror(a: Option<Box<Node>>, b: Option<Box<Node>>) -> bool
    decreases a,
{
    match (a, b) {
        (None, None) => true,
        (Some(x), Some(y)) => x.value == y.value && is_mirror(x.left, y.right) && is_mirror(
            x.right,
            y.left,
        ),
        _ => false,
    }
}

/// Mirroring is an involution: inverting a tree twice restores it.
pub proof fn lemma_mirror_twice(a: Option<Box<Node>>, b: Option<Box<Node>>, c: Option<Box<Node>>)
    requires
        is_mirror(a, b),
        is_mirror(b, c),
    ensures
        a == c,
    decreases a,
{
    match (a, b, c) {
        (Some(x), Some(y), Some(z)) => {
            lemma_mirror_twice(x.left, y.right, z.left);
            lemma_mirror_twice(x.right, y.left, z.right);
            assert(*x == *z);
        },
        _ => {
        },
    }
}

/// Swaps the left and right subtrees of every node.
pub fn invert(node: &mut Option<Box<Node>>)
    ensures
        is_mirror(*old(node), *final(node)),
    decreases *old(node),
{
    let mut boxed = match node.take() {
        Some(n) => n,
        None => {
            return ;
        },
    };
    invert(&mut boxed.left);
    invert(&mut boxed.right);
    let tmp = boxed.left;
    boxed.left = boxed.right;
    boxed.right = tmp;
    *node = Some(boxed);
}

} // verus!
