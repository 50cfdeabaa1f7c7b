//! Breadth-first traversal of a binary tree, level by level: the result
//! holds one vector per depth, each listing that depth's values from left
//! to right.

use vstd::prelude::*;

verus! {

pub struct Node {
    pub value: i32,
    pub left: Option<Box<Node>>,
    pub right: Option<Box<Node>>,
}

impl Node {
    pub fn new(value: i32) -> (n: Node)
        ensures
            n.value == value,
            n.left.is_none(),
            n.right.is_none(),
    {
        Node { value, left: None, right: None }
    }
}

/// The height of an optional subtree.
pub open spec fn tree_height(t: Option<Box<Node>>) -> nat
    decreases t,
{
    match t {
        None => 0,
        Some(n) => 1 + if tree_height(n.left) >= tree_height(n.right) {
            tree_height(n.left)
        } else {
            tree_height(n.right)
        },
    }
}

/// The values at depth `d` of an optional subtree, from left to right.
pub open spec fn level_seq(t: Option<Box<Node>>, d: nat) -> Seq<i32>
    decreases t,
{
    match t {
        None => Seq::empty(),
        Some(n) => if d == 0 {
            seq![n.value]
        } else {
            level_seq(n.left, (d - 1) as nat) + level_seq(n.right, (d - 1) as nat)
        },
    }
}

/// The values at depth `d` of the tree rooted at `n`.
pub open spec fn node_level(n: Node, d: nat) -> Seq<i32> {
    if d == 0 {
        seq![n.value]
    } else {
        level_seq(n.left, (d - 1) as nat) + level_seq(n.right, (d - 1) as nat)
    }
}

/// The height of the tree rooted at `n`.
pub open spec fn node_height(n: Node) -> nat {
    1 + if tree_height(n.left) >= tree_height(n.right) {
        tree_height(n.left)
    } else {
        tree_height(n.right)
    }
}

/// The values at depth `d` below a row of subtrees, in row order.
pub open spec fn forest_level(f: Seq<Box<Node>>, d: nat) -> Seq<i32>
    decreases f.len(),
{
    if f.len() == 0 {
        Seq::empty()
    } else {
        forest_level(f.drop_last(), d) + level_seq(Some(f.last()), d)
    }
}

/// The total number of nodes in an optional subtree.
pub open spec fn tree_count(t: Option<Box<Node>>) -> nat
    decreases t,
{
    match t {
        None => 0,
        Some(n) => 1 + tree_count(n.left) + tree_count(n.right),
    }
}

/// The total number of nodes below a row of subtrees.
pub open spec fn forest_count(f: Seq<Box<Node>>) -> nat
    decreases f.len(),
{
    if f.len() == 0 {
        0
    } else {
        forest_count(f.drop_last()) + tree_count(Some(f.last()))
    }
}

/// A row of subtrees contributes exactly one value each at depth zero.
proof fn lemma_forest_level_zero(f: Seq<Box<Node>>)
    ensures
        forest_level(f, 0).len() == f.len(),
    decreases f.len(),
{
    if f.len() > 0 {
        lemma_forest_level_zero(f.drop_last());
    }
}

/// A depth holds values exactly when it is below the tree's height.
proof fn lemma_level_nonempty(t: Option<Box<Node>>, d: nat)
    ensures
        (level_seq(t, d).len() > 0) == (d < tree_height(t)),
    decreases t,
{
    match t {
        None => {
        },
        Some(n) => {
            if d > 0 {
                lemma_level_nonempty(n.left, (d - 1) as nat);
                lemma_level_nonempty(n.right, (d - 1) as nat);
            }
        },
    }
}

/// Returns the tree's values grouped by depth: one vector per level,
/// from the root down, each ordered left to right.
#[verifier::loop_isolation(false)]
pub fn order_traversal(root: Node) -> (result: Vec<Vec<i32>>)
    ensures
        result@.len() == node_height(root),
        forall|d: int| 0 <= d < result@.len() ==> (#[trigger] result@[d])@ == node_level(
            root,
            d as nat,
        ),
{
    let ghost root0 = root;
    let mut result: Vec<Vec<i32>> = Vec::new();
    let mut queue: Vec<Box<Node>> = Vec::new();
    queue.push(Box::new(root));
    proof {
        assert(queue@.drop_last() =~= Seq::<Box<Node>>::empty());
        assert forall|d: nat| forest_level(queue@, d) == node_level(root0, d) by {
            assert(forest_level(queue@, d) == forest_level(queue@.drop_last(), d) + level_seq(
                Some(queue@.last()),
                d,
            ));
            assert(Seq::<i32>::empty() + level_seq(Some(queue@[0]), d) =~= level_seq(
                Some(queue@[0]),
                d,
            ));
        }
    }
    while queue.len() > 0
        invariant
            result@.len() <= node_height(root0),
            forall|d: nat| forest_level(queue@, d) == node_level(root0, (result@.len() + d) as nat),
            forall|i: int| 0 <= i < result@.len() ==> (#[trigger] result@[i])@ == node_level(
                root0,
                i as nat,
            ),
        decreases forest_count(queue@),
    {
        let ghost q0 = queue@;
        let ghost level_index = result@.len();
        proof {
            lemma_forest_level_zero(q0);
            assert(forest_level(q0, 0).len() == q0.len());
            assert(node_level(root0, level_index as nat).len() > 0);
            if level_index >= 1 {
                lemma_level_nonempty(root0.left, (level_index - 1) as nat);
                lemma_level_nonempty(root0.right, (level_index - 1) as nat);
            }
            assert(level_index < node_height(root0));
        }
        let mut new_queue: Vec<Box<Node>> = Vec::new();
        let mut sub_result: Vec<i32> = Vec::new();
        while queue.len() > 0
            invariant
                queue@.len() <= q0.len(),
                queue@ == q0.subrange(q0.len() - queue@.len(), q0.len() as int),
                sub_result@ == forest_level(q0.take(q0.len() - queue@.len()), 0),
                forall|d: nat| #[trigger] forest_level(new_queue@, d) == forest_level(
                    q0.take(q0.len() - queue@.len()),
                    (d + 1) as nat,
                ),
                forest_count(new_queue@) + (q0.len() - queue@.len()) == forest_count(
                    q0.take(q0.len() - queue@.len()),
                ),
            decreases queue@.len(),
        {
            let ghost processed = q0.len() - queue@.len();
            let ghost nq_pre = new_queue@;
            let node = queue.remove(0);
            proof {
                assert(node == q0[processed]);
                assert(queue@ =~= q0.subrange(q0.len() - queue@.len(), q0.len() as int));
                assert(q0.take(processed + 1).drop_last() =~= q0.take(processed));
            }
            let Node { value, left, right } = *node;
            let ghost left0 = left;
            let ghost right0 = right;
            sub_result.push(value);
            proof {
                assert(level_seq(Some(q0[processed]), 0) == seq![value]);
                assert(sub_result@ =~= forest_level(q0.take(processed + 1), 0));
            }
            match left {
                Some(l) => {
                    let ghost pre = new_queue@;
                    new_queue.push(l);
                    proof {
                        assert(new_queue@.drop_last() =~= pre);
                    }
                },
                None => {},
            }
            match right {
                Some(r) => {
                    let ghost pre = new_queue@;
                    new_queue.push(r);
                    proof {
                        assert(new_queue@.drop_last() =~= pre);
                    }
                },
                None => {},
            }
            proof {
                assert forall|d: nat| #[trigger] forest_level(new_queue@, d) == forest_level(
                    q0.take(processed + 1),
                    (d + 1) as nat,
                ) by {
                    assert(forest_level(q0.take(processed + 1), (d + 1) as nat) == forest_level(
                        q0.take(processed),
                        (d + 1) as nat,
                    ) + level_seq(Some(q0[processed]), (d + 1) as nat));
                    assert(level_seq(Some(q0[processed]), (d + 1) as nat) == level_seq(left0, d)
                        + level_seq(right0, d));
                    if left0 is Some && right0 is Some {
                        assert(new_queue@.drop_last() =~= nq_pre.push(left0.unwrap()));
                        assert(forest_level(new_queue@, d) == forest_level(
                            new_queue@.drop_last(),
                            d,
                        ) + level_seq(Some(right0.unwrap()), d));
                        assert(forest_level(new_queue@.drop_last(), d) == forest_level(nq_pre, d)
                            + level_seq(Some(left0.unwrap()), d));
                    } else if left0 is Some {
                        assert(new_queue@.drop_last() =~= nq_pre);
                        assert(forest_level(new_queue@, d) == forest_level(nq_pre, d) + level_seq(
                            Some(left0.unwrap()),
                            d,
                        ));
                        assert(forest_level(nq_pre, d) + level_seq(left0, d) + level_seq(
                            right0,
                            d,
                        ) =~= forest_level(nq_pre, d) + level_seq(left0, d));
                    } else if right0 is Some {
                        assert(new_queue@.drop_last() =~= nq_pre);
                        assert(forest_level(new_queue@, d) == forest_level(nq_pre, d) + level_seq(
                            Some(right0.unwrap()),
                            d,
                        ));
                        assert(forest_level(nq_pre, d) + level_seq(left0, d) + level_seq(
                            right0,
                            d,
                        ) =~= forest_level(nq_pre, d) + level_seq(right0, d));
                    } else {
                        assert(forest_level(nq_pre, d) + level_seq(left0, d) + level_seq(
                            right0,
                            d,
                        ) =~= forest_level(nq_pre, d));
                    }
                }
                assert(forest_count(q0.take(processed + 1)) == forest_count(q0.take(processed))
                    + tree_count(Some(q0[processed])));
                assert(tree_count(Some(q0[processed])) == 1 + tree_count(left0) + tree_count(
                    right0,
                ));
                if left0 is Some && right0 is Some {
                    assert(new_queue@.drop_last() =~= nq_pre.push(left0.unwrap()));
                    assert(forest_count(new_queue@) == forest_count(new_queue@.drop_last())
                        + tree_count(Some(right0.unwrap())));
                    assert(forest_count(new_queue@.drop_last()) == forest_count(nq_pre)
                        + tree_count(Some(left0.unwrap())));
                } else if left0 is Some {
                    assert(new_queue@.drop_last() =~= nq_pre);
                    assert(forest_count(new_queue@) == forest_count(nq_pre) + tree_count(
                        Some(left0.unwrap()),
                    ));
                } else if right0 is Some {
                    assert(new_queue@.drop_last() =~= nq_pre);
                    assert(forest_count(new_queue@) == forest_count(nq_pre) + tree_count(
                        Some(right0.unwrap()),
                    ));
                }
                assert(forest_count(new_queue@) + (processed + 1) == forest_count(
                    q0.take(processed + 1),
                ));
            }
        }
        proof {
            assert(q0.take(q0.len() as int) =~= q0);
        }
        result.push(sub_result);
        queue = new_queue;
        proof {
            assert forall|d: nat| forest_level(queue@, d) == node_level(
                root0,
                (result@.len() + d) as nat,
            ) by {
                assert(forest_level(queue@, d) == forest_level(q0, (d + 1) as nat));
                assert(forest_level(q0, (d + 1) as nat) == node_level(
                    root0,
                    (level_index + d + 1) as nat,
                ));
            }
            assert(forest_count(q0) == forest_count(queue@) + q0.len());
        }
    }
    proof {
        if result@.len() < node_height(root0) {
            assert(forest_level(queue@, 0) == node_level(root0, result@.len() as nat));
            if result@.len() >= 1 {
                lemma_level_nonempty(root0.left, (result@.len() - 1) as nat);
                lemma_level_nonempty(root0.right, (result@.len() - 1) as nat);
            }
            assert(node_level(root0, result@.len() as nat).len() > 0);
            assert(false);
        }
    }
    result
}

} // verus!
