//! The k-th smallest value of a binary search tree, found by an in-order
//! traversal that counts the values it passes.

use vstd::prelude::*;

verus! {

pub struct Node {
    pub value: i32,
    pub left: Option<Box<Node>>,
    pub right: Option<Box<Node>>,
}

impl Node {
    pub fn new(value: i32) -> (n: Node)
        ensures
            n.value == value,
            n.left.is_none(),
            n.right.is_none(),
    {
        Node { value, left: None, right: None }
    }
}

/// The in-order sequence of the values in an optional subtree.
pub open spec fn inorder(t: Option<Box<Node>>) -> Seq<i32>
    decreases t,
{
    match t {
        None => Seq::empty(),
        Some(n) => inorder(n.left) + seq![n.value] + inorder(n.right),
    }
}

/// Returns the `k`-th value (1-based) of the in-order traversal, or `None`
/// when `k` is zero or larger than the number of nodes. On a search tree
/// the in-order traversal is sorted, so this is the k-th smallest value.
pub fn find_lowest_kth(root: Option<Box<Node>>, k: usize) -> (r: Option<i32>)
    requires
        inorder(root).len() <= usize::MAX,
    ensures
        r == if 1 <= k <= inorder(root).len() {
            Some(inorder(root)[k - 1])
        } else {
            None::<i32>
        },
{
    let mut result: Option<i32> = None;
    let mut count: usize = 0;
    lowest_kth(root, k, &mut result, &mut count);
    result
}

fn lowest_kth(node: Option<Box<Node>>, k: usize, result: &mut Option<i32>, count: &mut usize)
    requires
        *old(count) + inorder(node).len() <= usize::MAX,
    ensures
        *old(count) <= *final(count) <= *old(count) + inorder(node).len(),
        !(*old(count) < k <= *old(count) + inorder(node).len()) ==> {
            &&& *final(count) == *old(count) + inorder(node).len()
            &&& *final(result) == *old(result)
        },
        *old(count) < k <= *old(count) + inorder(node).len() ==> {
            &&& *final(result) == Some(inorder(node)[k - *old(count) - 1])
            &&& k <= *final(count)
        },
    decreases node,
{
    match node {
        None => {
        },
        Some(node) => {
            let n = *node;
            let ghost left_len = inorder(n.left).len();
            lowest_kth(n.left, k, result, count);
            proof {
                assert(inorder(Some(node))[left_len as int] == n.value);
                assert forall|i: int| 0 <= i < left_len implies inorder(Some(node))[i] == inorder(
                    n.left,
                )[i] by {}
            }
            *count += 1;
            if *count == k {
                *result = Some(n.value);
                return ;
            }
            lowest_kth(n.right, k, result, count);
            proof {
                assert forall|i: int|
                    0 <= i < inorder(n.right).len() implies #[trigger] inorder(n.right)[i]
                    == inorder(Some(node))[left_len + 1 + i] by {}
            }
        },
    }
}

} // verus!
