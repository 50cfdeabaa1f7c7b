//! An unbalanced binary search tree over `i32` values, with insertion and
//! membership search. Values equal to a node go into its left subtree, so
//! duplicates are kept.

use vstd::prelude::*;
use vstd::multiset::Multiset;

verus! {

broadcast use vstd::multiset::group_multiset_axioms;

pub struct Node {
    pub value: i32,
    pub left: Option<Box<Node>>,
    pub right: Option<Box<Node>>,
}

impl Node {
    pub fn new(value: i32) -> (n: Node)
        ensures
            n.value == value,
            n.left.is_none(),
            n.right.is_none(),
    {
        Node { value, left: None, right: None }
    }
}

fn clone_opt(t: &Option<Box<Node>>) -> (r: Option<Box<Node>>)
    ensures
        r == *t,
    decreases t,
{
    match t {
        None => None,
        Some(b) => Some(
            Box::new(
                Node { value: b.value, left: clone_opt(&b.left), right: clone_opt(&b.right) },
            ),
        ),
    }
}

impl Clone for Node {
    /// A deep copy: the clone is equal to the original tree.
    fn clone(&self) -> (r: Self)
        ensures
            r == *self,
    {
        Node { value: self.value, left: clone_opt(&self.left), right: clone_opt(&self.right) }
    }
}

/// The multiset of values stored in an optional subtree.
pub open spec fn tree_bag(t: Option<Box<Node>>) -> Multiset<i32>
    decreases t,
{
    match t {
        None => Multiset::empty(),
        Some(n) => tree_bag(n.left).add(tree_bag(n.right)).insert(n.value),
    }
}

/// The multiset of values stored at a node and below it.
pub open spec fn node_bag(n: Node) -> Multiset<i32> {
    tree_bag(n.left).add(tree_bag(n.right)).insert(n.value)
}

/// The search-tree ordering: values in the left subtree are at most the
/// node's value, values in the right subtree are strictly greater.
pub open spec fn ordered(t: Option<Box<Node>>) -> bool
    decreases t,
{
    match t {
        None => true,
        Some(n) => {
            &&& forall|x: i32| tree_bag(n.left).contains(x) ==> x <= n.value
            &&& forall|x: i32| tree_bag(n.right).contains(x) ==> x > n.value
            &&& ordered(n.left)
            &&& ordered(n.right)
        },
    }
}

/// The search-tree ordering for a whole tree rooted at a node.
pub open spec fn node_ordered(n: Node) -> bool {
    &&& forall|x: i32| tree_bag(n.left).contains(x) ==> x <= n.value
    &&& forall|x: i32| tree_bag(n.right).contains(x) ==> x > n.value
    &&& ordered(n.left)
    &&& ordered(n.right)
}

/// Adds `value` to the tree, keeping the search ordering. A value equal to
/// an existing node descends into that node's left subtree.
pub fn insert(node: &mut Node, value: i32)
    ensures
        node_bag(*final(node)) == node_bag(*old(node)).insert(value),
        final(node).value == old(node).value,
        node_ordered(*old(node)) ==> node_ordered(*final(node)),
    decreases *old(node),
{
    if node.value >= value {
        insert_opt(&mut node.left, value);
        proof {
            if node_ordered(*old(node)) {
                assert forall|x: i32| tree_bag(node.left).contains(x) implies x
                    <= node.value by {
                    if x != value {
                        assert(tree_bag(old(node).left).contains(x));
                    }
                }
            }
        }
    } else {
        insert_opt(&mut node.right, value);
        proof {
            if node_ordered(*old(node)) {
                assert forall|x: i32| tree_bag(node.right).contains(x) implies x
                    > node.value by {
                    if x != value {
                        assert(tree_bag(old(node).right).contains(x));
                    }
                }
            }
        }
    }
    proof {
        assert(node_bag(*node) =~= node_bag(*old(node)).insert(value));
    }
}

fn insert_opt(t: &mut Option<Box<Node>>, value: i32)
    ensures
        tree_bag(*final(t)) == tree_bag(*old(t)).insert(value),
        ordered(*old(t)) ==> ordered(*final(t)),
    decreases *old(t),
{
    match t.take() {
        None => {
            *t = Some(Box::new(Node { value, left: None, right: None }));
            proof {
                assert(tree_bag(*t) =~= tree_bag(*old(t)).insert(value));
            }
        },
        Some(mut b) => {
            let ghost b0 = *b;
            if b.value >= value {
                insert_opt(&mut b.left, value);
                proof {
                    if ordered(*old(t)) {
                        assert forall|x: i32| tree_bag(b.left).contains(x) implies x
                            <= b.value by {
                            if x != value {
                                assert(tree_bag(b0.left).contains(x));
                            }
                        }
                    }
                }
            } else {
                insert_opt(&mut b.right, value);
                proof {
                    if ordered(*old(t)) {
                        assert forall|x: i32| tree_bag(b.right).contains(x) implies x
                            > b.value by {
                            if x != value {
                                assert(tree_bag(b0.right).contains(x));
                            }
                        }
                    }
                }
            }
            *t = Some(b);
            proof {
                assert(tree_bag(*t) =~= tree_bag(*old(t)).insert(value));
            }
        },
    }
}

/// Returns whether `target` occurs in the tree.
pub fn search(node: Option<Box<Node>>, target: i32) -> (r: bool)
    requires
        ordered(node),
    ensures
        r == tree_bag(node).contains(target),
    decreases node,
{
    let node = if let Some(node) = node {
        if node.value == target {
            return true;
        }
        node
    } else {
        return false;
    };
    let n = *node;
    if n.value >= target {
        proof {
            assert(!tree_bag(n.right).contains(target));
        }
        search(n.left, target)
    } else {
        proof {
            assert(!tree_bag(n.left).contains(target));
        }
        search(n.right, target)
    }
}

} // verus!
