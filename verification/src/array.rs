//! Linear search over a slice.

use vstd::prelude::*;

verus! {

/// Linear scan for `el`; returns the first matching index, or -1 when the
/// slice does not contain `el`.
pub fn find_element_arr(arr: &[i32], el: i32) -> (r: i32)
    requires
        arr@.len() <= i32::MAX as int,
    ensures
        r == -1 <==> !arr@.contains(el),
        r != -1 ==> 0 <= r < arr@.len() && arr@[r as int] == el && (forall|j: int|
            0 <= j < r ==> arr@[j] != el),
{
    let n = arr.len();
    let mut i: usize = 0;
    while i < n
        invariant
            arr@.len() <= i32::MAX as int,
            n == arr@.len(),
            i <= n,
            forall|j: int| 0 <= j < i ==> arr@[j] != el,
        decreases n - i,
    {
        if arr[i] == el {
            return i as i32;
        }
        i = i + 1;
    }
    assert(!arr@.contains(el)) by {
        if arr@.contains(el) {
            let j = arr@.index_of(el);
        }
    }
    -1
}

} // verus!
