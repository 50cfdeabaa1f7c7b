//! Deletion from a binary search tree with distinct values. A matching
//! node with two children is replaced by its in-order successor, the
//! smallest value of its right subtree. The root node itself cannot be
//! unlinked: deleting a childless root leaves the tree unchanged.

use vstd::prelude::*;

verus! {

pub struct Node {
    pub value: i32,
    pub left: Option<Box<Node>>,
    pub right: Option<Box<Node>>,
}

impl Node {
    pub fn new(value: i32) -> (n: Node)
        ensures
            n.value == value,
            n.left.is_none(),
            n.right.is_none(),
    {
        Node { value, left: None, right: None }
    }
}

/// The set of values in an optional subtree.
pub open spec fn tree_set(t: Option<Box<Node>>) -> Set<i32>
    decreases t,
{
    match t {
        None => Set::empty(),
        Some(n) => tree_set(n.left).union(tree_set(n.right)).insert(n.value),
    }
}

/// The set of values in the tree rooted at `n`.
pub open spec fn node_set(n: Node) -> Set<i32> {
    tree_set(n.left).union(tree_set(n.right)).insert(n.value)
}

/// The strict search ordering: left subtree values are smaller than the
/// node's value, right subtree values larger, so all values are distinct.
pub open spec fn strict(t: Option<Box<Node>>) -> bool
    decreases t,
{
    match t {
        None => true,
        Some(n) => {
            &&& forall|x: i32| tree_set(n.left).contains(x) ==> x < n.value
            &&& forall|x: i32| tree_set(n.right).contains(x) ==> x > n.value
            &&& strict(n.left)
            &&& strict(n.right)
        },
    }
}

/// The strict search ordering for the tree rooted at `n`.
pub open spec fn node_strict(n: Node) -> bool {
    &&& forall|x: i32| tree_set(n.left).contains(x) ==> x < n.value
    &&& forall|x: i32| tree_set(n.right).contains(x) ==> x > n.value
    &&& strict(n.left)
    &&& strict(n.right)
}

/// Removes `target` from the search tree, keeping the ordering. A tree
/// whose root is a leaf is never changed, since the root node itself
/// cannot be unlinked; in every other case the target value, if present,
/// is removed, and an absent target leaves the tree as it was.
pub fn delete(root: &mut Node, target: i32)
    requires
        node_strict(*old(root)),
    ensures
        node_strict(*final(root)),
        old(root).left.is_none() && old(root).right.is_none() ==> *final(root) == *old(root),
        !(old(root).left.is_none() && old(root).right.is_none()) ==> node_set(*final(root))
            == node_set(*old(root)).remove(target),
        !node_set(*old(root)).contains(target) ==> *final(root) == *old(root),
{
    if root.left.is_none() && root.right.is_none() {
        return ;
    }
    if root.value == target {
        if root.left.is_none() {
            let r = root.right.take().unwrap();
            let n = *r;
            root.value = n.value;
            root.left = n.left;
            root.right = n.right;
            proof {
                assert(node_set(*root) =~= node_set(*old(root)).remove(target));
            }
        } else if root.right.is_none() {
            let l = root.left.take().unwrap();
            let n = *l;
            root.value = n.value;
            root.left = n.left;
            root.right = n.right;
            proof {
                assert(node_set(*root) =~= node_set(*old(root)).remove(target));
            }
        } else {
            let successor = delete_min(&mut root.right);
            root.value = successor;
            proof {
                assert(node_set(*root) =~= node_set(*old(root)).remove(target));
            }
        }
    } else if target < root.value {
        delete_opt(&mut root.left, target);
        proof {
            assert(!tree_set(old(root).right).contains(target));
            assert(node_set(*root) =~= node_set(*old(root)).remove(target));
        }
    } else {
        delete_opt(&mut root.right, target);
        proof {
            assert(!tree_set(old(root).left).contains(target));
            assert(node_set(*root) =~= node_set(*old(root)).remove(target));
        }
    }
}

fn delete_opt(t: &mut Option<Box<Node>>, target: i32)
    requires
        strict(*old(t)),
    ensures
        strict(*final(t)),
        tree_set(*final(t)) == tree_set(*old(t)).remove(target),
        !tree_set(*old(t)).contains(target) ==> *final(t) == *old(t),
    decreases *old(t),
{
    match t.take() {
        None => {
            proof {
                assert(tree_set(*t) =~= tree_set(*old(t)).remove(target));
            }
        },
        Some(b) => {
            let Node { value, mut left, mut right } = *b;
            if target == value {
                if left.is_none() {
                    *t = right;
                    proof {
                        let n0 = old(t).unwrap();
                        assert(n0.left is None);
                        assert(*t == n0.right);
                        assert(tree_set(*old(t)) == tree_set(n0.left).union(
                            tree_set(n0.right),
                        ).insert(n0.value));
                        assert(tree_set(n0.left) == Set::<i32>::empty());
                        assert forall|x: i32|
                            tree_set(*t).contains(x) == tree_set(*old(t)).remove(target).contains(
                                x,
                            ) by {
                            if tree_set(*t).contains(x) {
                                assert(tree_set(n0.right).contains(x));
                                assert(x > target);
                            }
                        }
                        assert(tree_set(*t) =~= tree_set(*old(t)).remove(target));
                    }
                } else if right.is_none() {
                    *t = left;
                    proof {
                        let n0 = old(t).unwrap();
                        assert(n0.right is None);
                        assert(*t == n0.left);
                        assert(tree_set(*old(t)) == tree_set(n0.left).union(
                            tree_set(n0.right),
                        ).insert(n0.value));
                        assert(tree_set(n0.right) == Set::<i32>::empty());
                        assert forall|x: i32|
                            tree_set(*t).contains(x) == tree_set(*old(t)).remove(target).contains(
                                x,
                            ) by {
                            if tree_set(*t).contains(x) {
                                assert(tree_set(n0.left).contains(x));
                                assert(x < target);
                            }
                        }
                        assert(tree_set(*t) =~= tree_set(*old(t)).remove(target));
                    }
                } else {
                    let ghost right0 = right;
                    let successor = delete_min(&mut right);
                    *t = Some(Box::new(Node { value: successor, left, right }));
                    proof {
                        assert(tree_set(right0).contains(successor));
                        assert(successor > target);
                        assert(!tree_set(left).contains(target));
                        assert(!tree_set(right0).contains(target));
                        assert(tree_set(*t) =~= tree_set(*old(t)).remove(target));
                    }
                }
            } else if target < value {
                delete_opt(&mut left, target);
                *t = Some(Box::new(Node { value, left, right }));
                proof {
                    assert(!tree_set(right).contains(target));
                    assert(tree_set(*t) =~= tree_set(*old(t)).remove(target));
                }
            } else {
                delete_opt(&mut right, target);
                *t = Some(Box::new(Node { value, left, right }));
                proof {
                    assert(!tree_set(left).contains(target));
                    assert(tree_set(*t) =~= tree_set(*old(t)).remove(target));
                }
            }
        },
    }
}

/// Removes and returns the smallest value of a nonempty strict search
/// tree: the in-order first node, found by walking left.
fn delete_min(t: &mut Option<Box<Node>>) -> (min: i32)
    requires
        old(t).is_some(),
        strict(*old(t)),
    ensures
        strict(*final(t)),
        tree_set(*old(t)).contains(min),
        forall|x: i32| tree_set(*old(t)).contains(x) && x != min ==> x > min,
        tree_set(*final(t)) == tree_set(*old(t)).remove(min),
    decreases *old(t),
{
    let b = t.take().unwrap();
    let Node { value, mut left, right } = *b;
    match left {
        None => {
            *t = right;
            proof {
                let n0 = old(t).unwrap();
                assert(n0.left is None);
                assert(*t == n0.right);
                assert(n0.value == value);
                assert(tree_set(*old(t)) == tree_set(n0.left).union(tree_set(n0.right)).insert(
                    n0.value,
                ));
                assert(tree_set(n0.left) == Set::<i32>::empty());
                assert(forall|x: i32| tree_set(n0.right).contains(x) ==> x > n0.value);
                assert forall|x: i32|
                    tree_set(*t).contains(x) == tree_set(*old(t)).remove(value).contains(x) by {
                    if tree_set(*t).contains(x) {
                        assert(tree_set(n0.right).contains(x));
                        assert(x > value);
                    }
                }
                assert(tree_set(*t) =~= tree_set(*old(t)).remove(value));
            }
            value
        },
        Some(lbox) => {
            left = Some(lbox);
            let ghost left0 = left;
            let m = delete_min(&mut left);
            *t = Some(Box::new(Node { value, left, right }));
            proof {
                assert(tree_set(left0).contains(m));
                assert(m < value);
                assert(!tree_set(right).contains(m));
                assert(tree_set(*t) =~= tree_set(*old(t)).remove(m));
            }
            m
        },
    }
}

} // verus!
