//! Binary search over a sorted vector.

use vstd::prelude::*;

verus! {

/// Whether the vector is sorted in non-decreasing order.
pub open spec fn sorted(nums: Seq<i32>) -> bool {
    forall|i: int, j: int| 0 <= i <= j < nums.len() ==> nums[i] <= nums[j]
}

/// Returns the index of an occurrence of `target` in the sorted vector
/// `nums`, or `-1` when `target` does not occur. When `target` occurs more
/// than once, any of its indices may be returned.
pub fn binary_search(nums: &Vec<i32>, target: i32) -> (r: i32)
    requires
        nums.len() <= i32::MAX,
        sorted(nums@),
    ensures
        r == -1 ==> forall|i: int| 0 <= i < nums@.len() ==> nums@[i] != target,
        r != -1 ==> 0 <= r < nums@.len() && nums@[r as int] == target,
{
    let size = nums.len();
    if size == 0 {
        return -1;
    }
    let mut left: i32 = 0;
    let mut right: i32 = size as i32 - 1;
    while left <= right
        invariant
            nums.len() == size <= i32::MAX,
            sorted(nums@),
            0 <= left <= size,
            -1 <= right < size,
            left <= right + 1,
            forall|i: int| 0 <= i < left ==> nums@[i] != target,
            forall|i: int| right < i < size ==> nums@[i] != target,
        decreases right + 1 - left,
    {
        let mid = (left + (right - left) / 2) as usize;
        if nums[mid] == target {
            return mid as i32;
        }
        if nums[mid] < target {
            proof {
                assert forall|i: int| 0 <= i <= mid implies nums@[i] != target by {
                    assert(nums@[i] <= nums@[mid as int]);
                }
            }
            left = mid as i32 + 1;
        } else {
            proof {
                assert forall|i: int| mid <= i < size implies nums@[i] != target by {
                    assert(nums@[mid as int] <= nums@[i]);
                }
            }
            right = mid as i32 - 1;
        }
    }
    -1
}

} // verus!
