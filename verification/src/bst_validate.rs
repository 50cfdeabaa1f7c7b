//! Checking that a binary tree satisfies the search ordering: along every
//! path, a value must be strictly greater than every lower bound inherited
//! from the left and at most every upper bound inherited from the right.

use vstd::prelude::*;

verus! {

pub struct Node {
    pub value: i32,
    pub left: Option<Box<Node>>,
    pub right: Option<Box<Node>>,
}

impl Node {
    pub fn new(value: i32) -> (n: Node)
        ensures
            n.value == value,
            n.left.is_none(),
            n.right.is_none(),
    {
        Node { value, left: None, right: None }
    }
}

/// Every value in the optional subtree lies in the half-open range
/// `(lo, hi]`, and the subtree itself respects the search ordering: left
/// children may repeat their parent's value, right children may not.
pub open spec fn in_range(t: Option<Box<Node>>, lo: int, hi: int) -> bool
    decreases t,
{
    match t {
        None => true,
        Some(n) => lo < n.value <= hi && in_range(n.left, lo, n.value as int) && in_range(
            n.right,
            n.value as int,
            hi,
        ),
    }
}

/// The tree rooted at `n` keeps every value in `(lo, hi]` and respects the
/// search ordering.
pub open spec fn node_in_range(n: Node, lo: int, hi: int) -> bool {
    lo < n.value <= hi && in_range(n.left, lo, n.value as int) && in_range(
        n.right,
        n.value as int,
        hi,
    )
}

/// Returns whether the tree is a valid search tree. The root itself is
/// checked against the full `i32` range, so a root equal to `i32::MIN`
/// is rejected along with any out-of-order descendant.
pub fn validate(node: Node) -> (r: bool)
    ensures
        r == node_in_range(node, i32::MIN as int, i32::MAX as int),
{
    _validate(node, i32::MIN, i32::MAX)
}

fn _validate(node: Node, min: i32, max: i32) -> (r: bool)
    ensures
        r == node_in_range(node, min as int, max as int),
    decreases node,
{
    let Node { value, left: left_child, right: right_child } = node;
    let valid = value <= max && value > min;
    let left = if let Some(left) = left_child {
        _validate(*left, min, value)
    } else {
        true
    };
    let right = if let Some(right) = right_child {
        _validate(*right, value, max)
    } else {
        true
    };
    valid && left && right
}

} // verus!
