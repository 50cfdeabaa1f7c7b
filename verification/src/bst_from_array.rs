//! Building a height-balanced binary search tree from a sorted array:
//! the middle element becomes the root, and each half is built the same
//! way.

use vstd::prelude::*;

verus! {

pub struct Node {
    pub value: i32,
    pub left: Option<Box<Node>>,
    pub right: Option<Box<Node>>,
}

impl Node {
    pub fn new(value: i32) -> (n: Node)
        ensures
            n.value == value,
            n.left.is_none(),
            n.right.is_none(),
    {
        Node { value, left: None, right: None }
    }
}

/// The in-order sequence of the values in an optional subtree.
pub open spec fn inorder(t: Option<Box<Node>>) -> Seq<i32>
    decreases t,
{
    match t {
        None => Seq::empty(),
        Some(n) => inorder(n.left) + seq![n.value] + inorder(n.right),
    }
}

/// The set of values in an optional subtree.
pub open spec fn tree_set(t: Option<Box<Node>>) -> Set<i32>
    decreases t,
{
    match t {
        None => Set::empty(),
        Some(n) => tree_set(n.left).union(tree_set(n.right)).insert(n.value),
    }
}

/// The strict search ordering: left subtree values are smaller than the
/// node's value, right subtree values larger.
pub open spec fn strict(t: Option<Box<Node>>) -> bool
    decreases t,
{
    match t {
        None => true,
        Some(n) => {
            &&& forall|x: i32| tree_set(n.left).contains(x) ==> x < n.value
            &&& forall|x: i32| tree_set(n.right).contains(x) ==> x > n.value
            &&& strict(n.left)
            &&& strict(n.right)
        },
    }
}

/// The height of an optional subtree.
pub open spec fn tree_height(t: Option<Box<Node>>) -> nat
    decreases t,
{
    match t {
        None => 0,
        Some(n) => 1 + if tree_height(n.left) >= tree_height(n.right) {
            tree_height(n.left)
        } else {
            tree_height(n.right)
        },
    }
}

/// At every node, the heights of the two subtrees differ by at most one.
pub open spec fn balanced(t: Option<Box<Node>>) -> bool
    decreases t,
{
    match t {
        None => true,
        Some(n) => {
            &&& tree_height(n.left) <= tree_height(n.right) + 1
            &&& tree_height(n.right) <= tree_height(n.left) + 1
            &&& balanced(n.left)
            &&& balanced(n.right)
        },
    }
}

/// The height of the tree built from `n` elements: the middle element is
/// the root, `n / 2` elements go left and the rest right.
pub open spec fn built_height(n: nat) -> nat
    decreases n,
{
    if n == 0 {
        0
    } else {
        let l = built_height(n / 2);
        let r = built_height((n - n / 2 - 1) as nat);
        1 + if l >= r {
            l
        } else {
            r
        }
    }
}

/// Strictly ascending order.
pub open spec fn strict_sorted(s: Seq<i32>) -> bool {
    forall|i: int, j: int| 0 <= i < j < s.len() ==> s[i] < s[j]
}

/// One more element never lowers the built height, and raises it by at
/// most one.
proof fn lemma_built_height_step(k: nat)
    ensures
        built_height(k) <= built_height(k + 1) <= built_height(k) + 1,
    decreases k,
{
    if k == 0 {
    } else {
        let m = k / 2;
        if k % 2 == 0 {
            assert(k == 2 * m);
            assert((k + 1) / 2 == m && k + 1 - (k + 1) / 2 - 1 == m);
            assert(k / 2 == m && k - k / 2 - 1 == m - 1);
            lemma_built_height_step((m - 1) as nat);
        } else {
            assert(k == 2 * m + 1);
            assert(k / 2 == m && k - k / 2 - 1 == m);
            assert((k + 1) / 2 == m + 1 && k + 1 - (k + 1) / 2 - 1 == m);
            lemma_built_height_step(m);
        }
    }
}

/// A value occurs in a tree exactly when it occurs in its in-order
/// sequence.
proof fn lemma_tree_set_is_inorder(t: Option<Box<Node>>)
    ensures
        forall|x: i32| tree_set(t).contains(x) == inorder(t).contains(x),
    decreases t,
{
    match t {
        None => {
        },
        Some(n) => {
            lemma_tree_set_is_inorder(n.left);
            lemma_tree_set_is_inorder(n.right);
            assert forall|x: i32| tree_set(t).contains(x) == inorder(t).contains(x) by {
                let il = inorder(n.left);
                let ir = inorder(n.right);
                let whole = il + seq![n.value] + ir;
                assert(inorder(t) == whole);
                if tree_set(t).contains(x) {
                    if tree_set(n.left).contains(x) {
                        assert(il.contains(x));
                        let i = choose|i: int| 0 <= i < il.len() && il[i] == x;
                        assert(whole[i] == x);
                        assert(whole.contains(x));
                    } else if tree_set(n.right).contains(x) {
                        assert(ir.contains(x));
                        let i = choose|i: int| 0 <= i < ir.len() && ir[i] == x;
                        assert(whole[il.len() + 1 + i] == x);
                        assert(whole.contains(x));
                    } else {
                        assert(x == n.value);
                        assert(whole[il.len() as int] == x);
                        assert(whole.contains(x));
                    }
                }
                if whole.contains(x) {
                    let i = choose|i: int| 0 <= i < whole.len() && whole[i] == x;
                    if i < il.len() {
                        assert(il[i] == x);
                        assert(il.contains(x));
                        assert(tree_set(n.left).contains(x));
                    } else if i > il.len() {
                        assert(ir[i - il.len() - 1] == x);
                        assert(ir.contains(x));
                        assert(tree_set(n.right).contains(x));
                    } else {
                        assert(x == n.value);
                    }
                    assert(tree_set(t).contains(x));
                }
            }
        },
    }
}

/// A tree whose in-order sequence is strictly ascending is a strict
/// search tree.
proof fn lemma_sorted_inorder_strict(t: Option<Box<Node>>)
    requires
        strict_sorted(inorder(t)),
    ensures
        strict(t),
    decreases t,
{
    match t {
        None => {
        },
        Some(n) => {
            let il = inorder(n.left);
            let ir = inorder(n.right);
            let whole = il + seq![n.value] + ir;
            assert forall|i: int, j: int| 0 <= i < j < il.len() implies il[i] < il[j] by {
                assert(whole[i] == il[i] && whole[j] == il[j]);
            }
            assert forall|i: int, j: int| 0 <= i < j < ir.len() implies ir[i] < ir[j] by {
                assert(whole[il.len() + 1 + i] == ir[i] && whole[il.len() + 1 + j] == ir[j]);
            }
            lemma_sorted_inorder_strict(n.left);
            lemma_sorted_inorder_strict(n.right);
            lemma_tree_set_is_inorder(n.left);
            lemma_tree_set_is_inorder(n.right);
            assert forall|x: i32| tree_set(n.left).contains(x) implies x < n.value by {
                let i = choose|i: int| 0 <= i < il.len() && il[i] == x;
                assert(whole[i] == x && whole[il.len() as int] == n.value);
            }
            assert forall|x: i32| tree_set(n.right).contains(x) implies x > n.value by {
                let i = choose|i: int| 0 <= i < ir.len() && ir[i] == x;
                assert(whole[il.len() + 1 + i] == x && whole[il.len() as int] == n.value);
            }
        },
    }
}

/// Converts a sorted array into a height-balanced search tree whose
/// in-order traversal reproduces the array, or `None` for an empty array.
pub fn sorted_array_to_bst(nums: Vec<i32>) -> (r: Option<Box<Node>>)
    requires
        nums.len() <= usize::MAX / 2,
    ensures
        inorder(r) == nums@,
        balanced(r),
        tree_height(r) == built_height(nums@.len() as nat),
        strict_sorted(nums@) ==> strict(r),
    {
    let len = nums.len();
    let r = build(&nums, 0, len);
    proof {
        assert(nums@.subrange(0, len as int) =~= nums@);
        if strict_sorted(nums@) {
            lemma_sorted_inorder_strict(r);
        }
    }
    r
}

fn build(nums: &Vec<i32>, left: usize, right: usize) -> (r: Option<Box<Node>>)
    requires
        left <= right <= nums.len(),
        nums.len() <= usize::MAX / 2,
    ensures
        inorder(r) == nums@.subrange(left as int, right as int),
        balanced(r),
        tree_height(r) == built_height((right - left) as nat),
    decreases right - left,
{
    if right <= left {
        proof {
            assert(nums@.subrange(left as int, right as int) =~= Seq::<i32>::empty());
        }
        return None;
    }
    let mid = (left + right) / 2;
    proof {
        assert(mid - left == (right - left) / 2);
    }
    let l = build(nums, left, mid);
    let r = build(nums, mid + 1, right);
    let node = Node { value: nums[mid], left: l, right: r };
    proof {
        let n: nat = (right - left) as nat;
        assert(right - mid - 1 == n - n / 2 - 1);
        if (right - left) % 2 == 0 {
            lemma_built_height_step((right - mid - 1) as nat);
        }
        assert(inorder(Some(Box::new(node))) =~= nums@.subrange(left as int, right as int));
    }
    Some(Box::new(node))
}

} // verus!
