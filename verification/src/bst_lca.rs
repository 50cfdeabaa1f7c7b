//! The lowest common ancestor of two values in a binary search tree.

use vstd::prelude::*;

verus! {

pub struct Node {
    pub value: i32,
    pub left: Option<Box<Node>>,
    pub right: Option<Box<Node>>,
}

impl Node {
    pub fn new(value: i32) -> (n: Node)
        ensures
            n.value == value,
            n.left.is_none(),
            n.right.is_none(),
    {
        Node { value, left: None, right: None }
    }
}

/// Whether `x` occurs in the optional subtree.
pub open spec fn opt_contains(t: Option<Box<Node>>, x: i32) -> bool
    decreases t,
{
    match t {
        None => false,
        Some(n) => n.value == x || opt_contains(n.left, x) || opt_contains(n.right, x),
    }
}

/// Whether `x` occurs in the tree rooted at `n`.
pub open spec fn node_contains(n: Node, x: i32) -> bool {
    n.value == x || opt_contains(n.left, x) || opt_contains(n.right, x)
}

/// Whether `x` occurs under an optional root reference.
pub open spec fn ref_contains(node: Option<&Node>, x: i32) -> bool {
    match node {
        None => false,
        Some(n) => node_contains(*n, x),
    }
}

/// The search ordering: values in a left subtree are at most their parent's
/// value, values in a right subtree are strictly greater.
pub open spec fn ordered(t: Option<Box<Node>>) -> bool
    decreases t,
{
    match t {
        None => true,
        Some(n) => {
            &&& forall|x: i32| opt_contains(n.left, x) ==> x <= n.value
            &&& forall|x: i32| opt_contains(n.right, x) ==> x > n.value
            &&& ordered(n.left)
            &&& ordered(n.right)
        },
    }
}

/// The search ordering for the tree under an optional root reference.
pub open spec fn ref_ordered(node: Option<&Node>) -> bool {
    match node {
        None => true,
        Some(n) => {
            &&& forall|x: i32| opt_contains(n.left, x) ==> x <= n.value
            &&& forall|x: i32| opt_contains(n.right, x) ==> x > n.value
            &&& ordered(n.left)
            &&& ordered(n.right)
        },
    }
}

fn child<'a>(c: &'a Option<Box<Node>>) -> (r: Option<&'a Node>)
    ensures
        match c {
            None => r.is_none(),
            Some(b) => r matches Some(n) && *n == **b,
        },
{
    match c {
        None => None,
        Some(b) => Some(&**b),
    }
}

/// Returns whether `target` occurs in the search tree.
pub fn search(node: Option<&Node>, target: i32) -> (r: bool)
    requires
        ref_ordered(node),
    ensures
        r == ref_contains(node, target),
    decreases node,
{
    let node = if let Some(node) = node {
        if node.value == target {
            return true;
        }
        node
    } else {
        return false;
    };
    if node.value >= target {
        proof {
            assert(!opt_contains(node.right, target));
        }
        search(child(&node.left), target)
    } else {
        proof {
            assert(!opt_contains(node.left, target));
        }
        search(child(&node.right), target)
    }
}

/// Returns the lowest common ancestor of `p` and `q`, after checking that
/// both occur in the tree; absent either, returns `None`.
pub fn lca_safe<'a>(node: Option<&'a Node>, p: i32, q: i32) -> (r: Option<&'a Node>)
    requires
        ref_ordered(node),
    ensures
        !(ref_contains(node, p) && ref_contains(node, q)) ==> r.is_none(),
        ref_contains(node, p) && ref_contains(node, q) ==> (r matches Some(n) && node_contains(
            *n,
            p,
        ) && node_contains(*n, q) && (if p <= q {
            p
        } else {
            q
        }) <= n.value <= (if p <= q {
            q
        } else {
            p
        })),
{
    if !search(node, p) || !search(node, q) {
        return None;
    }
    lca(node, p, q)
}

/// Descends while `p` and `q` lie strictly on the same side of the current
/// value, and returns the node where their search paths part. When both
/// values occur in the search tree, this is their lowest common ancestor.
pub fn lca<'a>(node: Option<&'a Node>, p: i32, q: i32) -> (r: Option<&'a Node>)
    requires
        ref_ordered(node),
    ensures
        node.is_none() ==> r.is_none(),
        r matches Some(n) ==> (if p <= q {
            p
        } else {
            q
        }) <= n.value <= (if p <= q {
            q
        } else {
            p
        }),
        ref_contains(node, p) && ref_contains(node, q) ==> (r matches Some(n) && node_contains(
            *n,
            p,
        ) && node_contains(*n, q)),
    decreases node,
{
    match node {
        Some(n) => {
            let value = n.value;
            if p < value && q < value {
                proof {
                    if node_contains(*n, p) {
                        assert(!opt_contains(n.right, p));
                    }
                    if node_contains(*n, q) {
                        assert(!opt_contains(n.right, q));
                    }
                }
                return lca(child(&n.left), p, q);
            }
            if p > value && q > value {
                proof {
                    if node_contains(*n, p) {
                        assert(!opt_contains(n.left, p));
                    }
                    if node_contains(*n, q) {
                        assert(!opt_contains(n.left, q));
                    }
                }
                return lca(child(&n.right), p, q);
            }
            Some(n)
        },
        None => None,
    }
}

} // verus!
