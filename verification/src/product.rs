//! Maximum product over contiguous non-empty subarrays.

use vstd::prelude::*;

verus! {

/// Product of all elements of `s` (1 for the empty sequence).
pub open spec fn prod(s: Seq<i32>) -> int
    decreases s.len(),
{
    if s.len() == 0 {
        1
    } else {
        prod(s.drop_last()) * s.last()
    }
}

/// Every contiguous non-empty subarray product fits in an `i32`.
pub open spec fn products_fit_i32(s: Seq<i32>) -> bool {
    forall|a: int, b: int|
        0 <= a < b <= s.len() ==> i32::MIN <= #[trigger] prod(s.subrange(a, b)) <= i32::MAX
}

/// `r` is the maximum product over the contiguous non-empty subarrays of
/// `s`: it is attained by one of them and no other exceeds it.
pub open spec fn is_max_product(s: Seq<i32>, r: i32) -> bool {
    &&& exists|a: int, b: int| 0 <= a < b <= s.len() && r as int == prod(s.subrange(a, b))
    &&& forall|a: int, b: int| 0 <= a < b <= s.len() ==> prod(#[trigger] s.subrange(a, b)) <= r as int
}

proof fn lemma_prod_singleton(s: Seq<i32>, a: int)
    requires
        0 <= a < s.len(),
    ensures
        prod(s.subrange(a, a + 1)) == s[a] as int,
{
    assert(s.subrange(a, a + 1).drop_last() =~= Seq::<i32>::empty());
    assert(s.subrange(a, a + 1).last() == s[a]);
    assert(prod(Seq::<i32>::empty()) == 1);
}

proof fn lemma_prod_extend(s: Seq<i32>, a: int, b: int)
    requires
        0 <= a <= b < s.len(),
    ensures
        prod(s.subrange(a, b + 1)) == prod(s.subrange(a, b)) * (s[b] as int),
{
    assert(s.subrange(a, b + 1).drop_last() =~= s.subrange(a, b));
    assert(s.subrange(a, b + 1).last() == s[b]);
}

/// The maximum product over all contiguous non-empty subarrays, or 0 for
/// an empty slice. Tracks the largest and smallest product of a subarray
/// ending at each position, so a sign flip can turn the smallest into the
/// new largest.
pub fn max_product(nums: &[i32]) -> (r: i32)
    requires
        products_fit_i32(nums@),
    ensures
        nums@.len() == 0 ==> r == 0,
        nums@.len() > 0 ==> is_max_product(nums@, r),
{
    let n = nums.len();
    if n == 0 {
        return 0;
    }
    let mut best = nums[0];
    let mut maxe = nums[0];
    let mut mine = nums[0];
    proof {
        lemma_prod_singleton(nums@, 0);
    }
    let mut i: usize = 1;
    while i < n
        invariant
            n == nums@.len(),
            1 <= i <= n,
            products_fit_i32(nums@),
            exists|a: int| 0 <= a < i && maxe as int == prod(nums@.subrange(a, i as int)),
            exists|a: int| 0 <= a < i && mine as int == prod(nums@.subrange(a, i as int)),
            forall|a: int| 0 <= a < i ==> prod(#[trigger] nums@.subrange(a, i as int)) <= maxe as int,
            forall|a: int| 0 <= a < i ==> prod(#[trigger] nums@.subrange(a, i as int)) >= mine as int,
            exists|a: int, b: int| 0 <= a < b <= i && best as int == prod(nums@.subrange(a, b)),
            forall|a: int, b: int| 0 <= a < b <= i
                ==> prod(#[trigger] nums@.subrange(a, b)) <= best as int,
        decreases n - i,
    {
        let x = nums[i];
        proof {
            let amx = choose|a: int| 0 <= a < i && maxe as int == prod(nums@.subrange(a, i as int));
            lemma_prod_extend(nums@, amx, i as int);
            assert(i32::MIN <= prod(nums@.subrange(amx, i as int + 1)) <= i32::MAX);
            let amn = choose|a: int| 0 <= a < i && mine as int == prod(nums@.subrange(a, i as int));
            lemma_prod_extend(nums@, amn, i as int);
            assert(i32::MIN <= prod(nums@.subrange(amn, i as int + 1)) <= i32::MAX);
        }
        let p1 = maxe * x;
        let p2 = mine * x;
        let mut newmax = x;
        if p1 > newmax {
            newmax = p1;
        }
        if p2 > newmax {
            newmax = p2;
        }
        let mut newmin = x;
        if p1 < newmin {
            newmin = p1;
        }
        if p2 < newmin {
            newmin = p2;
        }
        proof {
            lemma_prod_singleton(nums@, i as int);
            assert forall|a: int| 0 <= a < i + 1
                implies newmin as int <= prod(#[trigger] nums@.subrange(a, i as int + 1))
                    <= newmax as int by {
                if a == i {
                    assert(prod(nums@.subrange(a, i as int + 1)) == x as int);
                } else {
                    lemma_prod_extend(nums@, a, i as int);
                    let pa = prod(nums@.subrange(a, i as int));
                    let xe = x as int;
                    let hi = maxe as int;
                    let lo = mine as int;
                    assert(lo <= pa <= hi);
                    if xe >= 0 {
                        assert(pa * xe <= hi * xe && pa * xe >= lo * xe) by (nonlinear_arith)
                            requires lo <= pa <= hi && xe >= 0;
                    } else {
                        assert(pa * xe <= lo * xe && pa * xe >= hi * xe) by (nonlinear_arith)
                            requires lo <= pa <= hi && xe < 0;
                    }
                }
            }
            assert(exists|a: int|
                0 <= a < i + 1 && newmax as int == #[trigger] prod(nums@.subrange(a, i as int + 1))) by {
                if newmax == x {
                    assert(newmax as int == prod(nums@.subrange(i as int, i as int + 1)));
                } else if newmax == p1 {
                    let amx = choose|a: int|
                        0 <= a < i && maxe as int == prod(nums@.subrange(a, i as int));
                    lemma_prod_extend(nums@, amx, i as int);
                    assert(newmax as int == prod(nums@.subrange(amx, i as int + 1)));
                } else {
                    let amn = choose|a: int|
                        0 <= a < i && mine as int == prod(nums@.subrange(a, i as int));
                    lemma_prod_extend(nums@, amn, i as int);
                    assert(newmax as int == prod(nums@.subrange(amn, i as int + 1)));
                }
            }
            assert(exists|a: int|
                0 <= a < i + 1 && newmin as int == #[trigger] prod(nums@.subrange(a, i as int + 1))) by {
                if newmin == x {
                    assert(newmin as int == prod(nums@.subrange(i as int, i as int + 1)));
                } else if newmin == p1 {
                    let amx = choose|a: int|
                        0 <= a < i && maxe as int == prod(nums@.subrange(a, i as int));
                    lemma_prod_extend(nums@, amx, i as int);
                    assert(newmin as int == prod(nums@.subrange(amx, i as int + 1)));
                } else {
                    let amn = choose|a: int|
                        0 <= a < i && mine as int == prod(nums@.subrange(a, i as int));
                    lemma_prod_extend(nums@, amn, i as int);
                    assert(newmin as int == prod(nums@.subrange(amn, i as int + 1)));
                }
            }
        }
        if newmax > best {
            best = newmax;
        }
        proof {
            assert forall|a: int, b: int| 0 <= a < b <= i + 1
                implies prod(#[trigger] nums@.subrange(a, b)) <= best as int by {
                if b == i + 1 {
                    assert(prod(nums@.subrange(a, i as int + 1)) <= newmax as int);
                }
            }
        }
        maxe = newmax;
        mine = newmin;
        i = i + 1;
    }
    best
}

/// The same maximum, computed by direct enumeration: a running product for
/// every start position, extended one element at a time.
pub fn max_product_functional(nums: &[i32]) -> (r: i32)
    requires
        products_fit_i32(nums@),
    ensures
        nums@.len() == 0 ==> r == 0,
        nums@.len() > 0 ==> is_max_product(nums@, r),
{
    let n = nums.len();
    if n == 0 {
        return 0;
    }
    let mut best = nums[0];
    proof {
        lemma_prod_singleton(nums@, 0);
    }
    let mut a: usize = 0;
    while a < n
        invariant
            n == nums@.len(),
            n >= 1,
            a <= n,
            products_fit_i32(nums@),
            exists|c: int, d: int| 0 <= c < d <= n && best as int == prod(nums@.subrange(c, d)),
            forall|c: int, d: int| 0 <= c < a && c < d <= n
                ==> prod(#[trigger] nums@.subrange(c, d)) <= best as int,
        decreases n - a,
    {
        let mut p = nums[a];
        proof {
            lemma_prod_singleton(nums@, a as int);
        }
        if p > best {
            best = p;
        }
        let mut b = a + 1;
        while b < n
            invariant
                n == nums@.len(),
                a < n,
                a < b <= n,
                products_fit_i32(nums@),
                p as int == prod(nums@.subrange(a as int, b as int)),
                exists|c: int, d: int| 0 <= c < d <= n && best as int == prod(nums@.subrange(c, d)),
                forall|c: int, d: int| 0 <= c < a && c < d <= n
                    ==> prod(#[trigger] nums@.subrange(c, d)) <= best as int,
                forall|d: int| a < d <= b
                    ==> prod(#[trigger] nums@.subrange(a as int, d)) <= best as int,
            decreases n - b,
        {
            proof {
                lemma_prod_extend(nums@, a as int, b as int);
                assert(i32::MIN <= prod(nums@.subrange(a as int, b as int + 1)) <= i32::MAX);
            }
            p = p * nums[b];
            if p > best {
                best = p;
            }
            b = b + 1;
        }
        a = a + 1;
        proof {
            assert forall|c: int, d: int| 0 <= c < a && c < d <= n
                implies prod(#[trigger] nums@.subrange(c, d)) <= best as int by {}
        }
    }
    best
}

} // verus!
