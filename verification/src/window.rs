//! Sliding window maximum over an integer slice.
//!
//! A double-ended index queue holds candidate positions in strictly
//! decreasing order of their values, so the front is always the maximum of
//! the current window and each position enters and leaves the queue at most
//! once (amortized constant work per element).

use vstd::prelude::*;

verus! {

/// `v` is the maximum of the length-`k` window of `nums` starting at `w`:
/// it occurs in the window and nothing in the window exceeds it.
pub open spec fn is_window_max(nums: Seq<i32>, w: int, k: int, v: i32) -> bool {
    &&& exists|t: int| w <= t < w + k && nums[t] == v
    &&& forall|t: int| w <= t < w + k ==> nums[t] <= v
}

/// Some queue entry at or after position `t` holds a value at least
/// `nums[t]`, so dropping positions up to `t` cannot lose the maximum.
spec fn covered(nums: Seq<i32>, q: Seq<usize>, t: int) -> bool {
    exists|a: int| 0 <= a < q.len() && t <= q[a] && nums[q[a] as int] >= nums[t]
}

/// The maximum of every contiguous window of `window_size` elements, in
/// left-to-right window order. An empty slice or a zero window size yields
/// an empty result; a window size of one copies the input; otherwise the
/// result has one maximum per full window.
pub fn sliding_window_maximum(nums: &[i32], window_size: usize) -> (r: Vec<i32>)
    requires
        nums@.len() > 0 && window_size >= 2 ==> window_size <= nums@.len(),
    ensures
        nums@.len() == 0 || window_size == 0 ==> r@.len() == 0,
        window_size == 1 ==> r@ == nums@,
        1 <= window_size <= nums@.len() ==> r@.len() == nums@.len() - window_size + 1
            && forall|w: int| 0 <= w < r@.len()
                ==> is_window_max(nums@, w, window_size as int, r@[w]),
{
    let n = nums.len();
    if n == 0 || window_size == 0 {
        return Vec::new();
    }
    let k = window_size;
    let mut result: Vec<i32> = Vec::new();
    let mut q: Vec<usize> = Vec::new();
    let mut i: usize = 0;
    while i < n
        invariant
            n == nums@.len(),
            1 <= k <= n,
            i <= n,
            forall|a: int| 0 <= a < q@.len()
                ==> i - k <= #[trigger] (q@[a] as int) && (q@[a] as int) < i,
            forall|a: int, b: int| 0 <= a < b < q@.len() ==> #[trigger] q@[a] < #[trigger] q@[b],
            forall|a: int, b: int| 0 <= a < b < q@.len()
                ==> nums@[#[trigger] q@[a] as int] > nums@[#[trigger] q@[b] as int],
            i > 0 ==> q@.len() >= 1,
            forall|t: int| i - k <= t < i && 0 <= t ==> #[trigger] covered(nums@, q@, t),
            result@.len() == if i >= k { i - k + 1int } else { 0int },
            forall|w: int| 0 <= w < result@.len() ==> is_window_max(nums@, w, k as int, result@[w]),
        decreases n - i,
    {
        let x = nums[i];
        // Drop dominated candidates from the back: they are older than `i`
        // and no larger, so they can never again be a window maximum.
        loop
            invariant
                n == nums@.len(),
                1 <= k <= n,
                i < n,
                x == nums@[i as int],
                forall|a: int| 0 <= a < q@.len()
                    ==> i - k <= #[trigger] (q@[a] as int) && (q@[a] as int) < i,
                forall|a: int, b: int| 0 <= a < b < q@.len()
                    ==> #[trigger] q@[a] < #[trigger] q@[b],
                forall|a: int, b: int| 0 <= a < b < q@.len()
                    ==> nums@[#[trigger] q@[a] as int] > nums@[#[trigger] q@[b] as int],
                forall|t: int| i - k <= t < i && 0 <= t
                    ==> covered(nums@, q@, t) || nums@[t] <= x,
            ensures
                n == nums@.len(),
                forall|a: int| 0 <= a < q@.len()
                    ==> i - k <= #[trigger] (q@[a] as int) && (q@[a] as int) < i,
                forall|a: int, b: int| 0 <= a < b < q@.len()
                    ==> #[trigger] q@[a] < #[trigger] q@[b],
                forall|a: int, b: int| 0 <= a < b < q@.len()
                    ==> nums@[#[trigger] q@[a] as int] > nums@[#[trigger] q@[b] as int],
                forall|t: int| i - k <= t < i && 0 <= t
                    ==> covered(nums@, q@, t) || nums@[t] <= x,
                q@.len() == 0 || nums@[q@[q@.len() - 1] as int] > x,
            decreases q@.len(),
        {
            if q.len() == 0 {
                break;
            }
            let back = q[q.len() - 1];
            if nums[back] > x {
                break;
            }
            let ghost old_q = q@;
            let _dropped = q.pop();
            proof {
                assert forall|t: int| i - k <= t < i && 0 <= t
                    implies covered(nums@, q@, t) || nums@[t] <= x by {
                    if covered(nums@, old_q, t) {
                        let a = choose|a: int|
                            0 <= a < old_q.len() && t <= old_q[a]
                                && nums@[old_q[a] as int] >= nums@[t];
                        if a < old_q.len() - 1 {
                            assert(q@[a] == old_q[a]);
                            assert(covered(nums@, q@, t));
                        } else {
                            assert(nums@[t] <= nums@[old_q[a] as int] <= x);
                        }
                    }
                }
            }
        }
        let ghost pre_push = q@;
        q.push(i);
        proof {
            assert forall|t: int| i - k <= t <= i && 0 <= t
                implies covered(nums@, q@, t) by {
                if t == i {
                    assert(q@[q@.len() - 1] == i);
                    assert(covered(nums@, q@, t));
                } else if covered(nums@, pre_push, t) {
                    let a = choose|a: int|
                        0 <= a < pre_push.len() && t <= pre_push[a]
                            && nums@[pre_push[a] as int] >= nums@[t];
                    assert(q@[a] == pre_push[a]);
                    assert(covered(nums@, q@, t));
                } else {
                    assert(nums@[t] <= x);
                    assert(q@[q@.len() - 1] == i);
                    assert(covered(nums@, q@, t));
                }
            }
        }
        // Drop the front when it has slid out of the window ending at `i`.
        if i >= k {
            let front = q[0];
            if front <= i - k {
                let ghost pre_rem = q@;
                let _stale = q.remove(0);
                proof {
                    assert(q@.len() == pre_rem.len() - 1);
                    assert(forall|a: int| 0 <= a < q@.len() ==> q@[a] == pre_rem[a + 1]);
                    assert forall|t: int| i - k < t <= i && 0 <= t
                        implies covered(nums@, q@, t) by {
                        assert(covered(nums@, pre_rem, t));
                        let a = choose|a: int|
                            0 <= a < pre_rem.len() && t <= pre_rem[a]
                                && nums@[pre_rem[a] as int] >= nums@[t];
                        assert(pre_rem[a] as int >= t > i - k);
                        assert(a != 0);
                        assert(q@[a - 1] == pre_rem[a]);
                        assert(covered(nums@, q@, t));
                    }
                }
            }
        }
        proof {
            // After the push and the front drop, every queue entry lies in
            // the window ending at `i`.
            assert forall|a: int| 0 <= a < q@.len()
                implies i - k + 1 <= #[trigger] (q@[a] as int) && (q@[a] as int) <= i by {
                if a > 0 {
                    assert(q@[0] < q@[a]);
                }
            }
        }
        // The window [i - k + 1, i] is complete once i + 1 >= k; its
        // maximum sits at the front of the queue.
        if i + 1 >= k {
            let front = q[0];
            let m = nums[front];
            proof {
                let w = i as int - k as int + 1;
                assert forall|t: int| w <= t < w + k implies nums@[t] <= m as int by {
                    assert(covered(nums@, q@, t));
                    let a = choose|a: int|
                        0 <= a < q@.len() && t <= q@[a] && nums@[q@[a] as int] >= nums@[t];
                    if a > 0 {
                        assert(nums@[q@[0] as int] > nums@[q@[a] as int]);
                    }
                }
                assert(w <= (q@[0] as int) < w + k && nums@[q@[0] as int] == m);
                assert(is_window_max(nums@, w, k as int, m));
            }
            result.push(m);
        }
        i = i + 1;
    }
    proof {
        if k == 1 {
            assert forall|w: int| 0 <= w < result@.len() implies result@[w] == nums@[w] by {
                assert(is_window_max(nums@, w, 1, result@[w]));
                let t = choose|t: int| w <= t < w + 1 && nums@[t] == result@[w];
            }
            assert(result@ =~= nums@);
        }
    }
    result
}

} // verus!
