//! Interval merging: collapsing a set of `(start, end)` pairs into the
//! minimal equivalent set of non-overlapping ranges.
//!
//! The input is first sorted by start (ties keep their original relative
//! order), then folded left to right: an interval whose start lies at or
//! before the end of the running accumulator extends it (touching intervals
//! merge); any other interval closes the accumulator and opens a new one.

use vstd::prelude::*;

verus! {

/// Starts are non-decreasing left to right.
pub open spec fn sorted_by_start(s: Seq<(i32, i32)>) -> bool {
    forall|a: int, b: int| 0 <= a < b < s.len() ==> (#[trigger] s[a]).0 <= (#[trigger] s[b]).0
}

/// Stable insertion of `x` into `s` by start: `x` lands after every
/// element whose start is at most `x`'s.
pub open spec fn insert_by_start(s: Seq<(i32, i32)>, x: (i32, i32)) -> Seq<(i32, i32)>
    decreases s.len(),
{
    if s.len() == 0 {
        seq![x]
    } else if x.0 < s[0].0 {
        seq![x] + s
    } else {
        seq![s[0]] + insert_by_start(s.drop_first(), x)
    }
}

/// Stable sort by start: repeated insertion, left to right.
pub open spec fn sort_by_start(s: Seq<(i32, i32)>) -> Seq<(i32, i32)>
    decreases s.len(),
{
    if s.len() == 0 {
        Seq::empty()
    } else {
        insert_by_start(sort_by_start(s.drop_last()), s.last())
    }
}

/// The fold that merges a sorted sequence from position `idx` onward into
/// the running accumulator `cur`: an interval starting at or before
/// `cur`'s end extends it, any other closes it.
pub open spec fn merge_from(s: Seq<(i32, i32)>, idx: int, cur: (i32, i32)) -> Seq<(i32, i32)>
    decreases s.len() - idx,
{
    if idx < 0 || idx >= s.len() {
        seq![cur]
    } else if s[idx].0 <= cur.1 {
        merge_from(s, idx + 1, (cur.0, if s[idx].1 >= cur.1 { s[idx].1 } else { cur.1 }))
    } else {
        seq![cur] + merge_from(s, idx + 1, s[idx])
    }
}

/// Merge of an already sorted sequence.
pub open spec fn merge_sorted(s: Seq<(i32, i32)>) -> Seq<(i32, i32)> {
    if s.len() == 0 {
        Seq::empty()
    } else {
        merge_from(s, 1, s[0])
    }
}

/// The full merge: sort by start, then fold.
pub open spec fn merged_intervals(s: Seq<(i32, i32)>) -> Seq<(i32, i32)> {
    merge_sorted(sort_by_start(s))
}

/// Inserting into a sorted sequence keeps it sorted, adds one element, and
/// every element of the result carries a start already present or `x`'s.
proof fn lemma_insert_by_start_sorted(s: Seq<(i32, i32)>, x: (i32, i32))
    requires
        sorted_by_start(s),
    ensures
        sorted_by_start(insert_by_start(s, x)),
        insert_by_start(s, x).len() == s.len() + 1,
        forall|m: int| 0 <= m < insert_by_start(s, x).len()
            ==> (#[trigger] insert_by_start(s, x)[m]).0 >= x.0
                || (exists|qi: int| 0 <= qi < s.len() && insert_by_start(s, x)[m].0 == s[qi].0),
    decreases s.len(),
{
    let res = insert_by_start(s, x);
    if s.len() == 0 {
    } else if x.0 < s[0].0 {
        assert forall|m: int| 0 <= m < res.len() implies (#[trigger] res[m]).0 >= x.0
            || (exists|qi: int| 0 <= qi < s.len() && res[m].0 == s[qi].0) by {
            if m > 0 {
                assert(res[m] == s[m - 1]);
            }
        }
    } else {
        let tail = s.drop_first();
        assert(sorted_by_start(tail)) by {
            assert(forall|a: int, b: int| 0 <= a < b < tail.len()
                ==> (#[trigger] tail[a]).0 <= (#[trigger] tail[b]).0);
        }
        lemma_insert_by_start_sorted(tail, x);
        let rest = insert_by_start(tail, x);
        assert(res == seq![s[0]] + rest);
        assert forall|m: int| 0 <= m < res.len() implies (#[trigger] res[m]).0 >= x.0
            || (exists|qi: int| 0 <= qi < s.len() && res[m].0 == s[qi].0) by {
            if m == 0 {
                assert(res[0] == s[0]);
                assert(res[0].0 == s[0].0);
            } else {
                assert(res[m] == rest[m - 1]);
                if rest[m - 1].0 >= x.0 {
                } else {
                    let qi = choose|qi: int| 0 <= qi < tail.len() && rest[m - 1].0 == tail[qi].0;
                    assert(tail[qi] == s[qi + 1]);
                }
            }
        }
        assert forall|a: int, b: int| 0 <= a < b < res.len()
            implies (#[trigger] res[a]).0 <= (#[trigger] res[b]).0 by {
            if a == 0 {
                assert(res[b] == rest[b - 1]);
                if rest[b - 1].0 >= x.0 {
                    assert(res[0].0 <= x.0);
                } else {
                    let qi = choose|qi: int|
                        0 <= qi < tail.len() && rest[b - 1].0 == tail[qi].0;
                    assert(tail[qi] == s[qi + 1]);
                    assert(s[0].0 <= s[qi + 1].0);
                }
            } else {
                assert(res[a] == rest[a - 1]);
                assert(res[b] == rest[b - 1]);
            }
        }
    }
}

/// The sort really sorts and keeps the length.
pub proof fn lemma_sort_by_start_sorted(s: Seq<(i32, i32)>)
    ensures
        sorted_by_start(sort_by_start(s)),
        sort_by_start(s).len() == s.len(),
    decreases s.len(),
{
    if s.len() > 0 {
        lemma_sort_by_start_sorted(s.drop_last());
        lemma_insert_by_start_sorted(sort_by_start(s.drop_last()), s.last());
    }
}

/// Stable insertion lands exactly at the first position whose start
/// exceeds `x`'s.
proof fn lemma_insert_by_start_at(s: Seq<(i32, i32)>, x: (i32, i32), p: int)
    requires
        sorted_by_start(s),
        0 <= p <= s.len(),
        forall|qi: int| 0 <= qi < p ==> (#[trigger] s[qi]).0 <= x.0,
        p == s.len() || s[p].0 > x.0,
    ensures
        insert_by_start(s, x) == s.insert(p, x),
    decreases s.len(),
{
    if s.len() == 0 {
        assert(insert_by_start(s, x) =~= s.insert(0, x));
    } else if p == 0 {
        assert(insert_by_start(s, x) == seq![x] + s);
        assert(seq![x] + s =~= s.insert(0, x));
    } else {
        let tail = s.drop_first();
        assert(sorted_by_start(tail)) by {
            assert(forall|a: int, b: int| 0 <= a < b < tail.len()
                ==> (#[trigger] tail[a]).0 <= (#[trigger] tail[b]).0);
        }
        assert(s[0].0 <= x.0);
        assert forall|qi: int| 0 <= qi < p - 1 implies (#[trigger] tail[qi]).0 <= x.0 by {
            assert(tail[qi] == s[qi + 1]);
        }
        if p < s.len() {
            assert(tail[p - 1] == s[p]);
        }
        lemma_insert_by_start_at(tail, x, p - 1);
        assert(insert_by_start(s, x) == seq![s[0]] + tail.insert(p - 1, x));
        assert(seq![s[0]] + tail.insert(p - 1, x) =~= s.insert(p, x));
    }
}

/// Sorting an already sorted sequence changes nothing.
pub proof fn lemma_sort_of_sorted(s: Seq<(i32, i32)>)
    requires
        sorted_by_start(s),
    ensures
        sort_by_start(s) == s,
    decreases s.len(),
{
    if s.len() > 0 {
        let head = s.drop_last();
        assert(sorted_by_start(head)) by {
            assert(forall|a: int, b: int| 0 <= a < b < head.len()
                ==> (#[trigger] head[a]).0 <= (#[trigger] head[b]).0);
        }
        lemma_sort_of_sorted(head);
        assert forall|qi: int| 0 <= qi < head.len() implies (#[trigger] head[qi]).0 <= s.last().0 by {
            assert(head[qi] == s[qi]);
        }
        lemma_insert_by_start_at(head, s.last(), head.len() as int);
        assert(head.insert(head.len() as int, s.last()) =~= s);
    }
}

/// What the merge fold guarantees: at least the accumulator comes out, the
/// first output keeps the accumulator's start and covers at least its end,
/// starts are non-decreasing, and any later output starts strictly after
/// any earlier output ends.
proof fn lemma_merge_from_properties(s: Seq<(i32, i32)>, idx: int, cur: (i32, i32))
    requires
        sorted_by_start(s),
        0 <= idx <= s.len(),
        forall|qi: int| idx <= qi < s.len() ==> (#[trigger] s[qi]).0 >= cur.0,
    ensures
        merge_from(s, idx, cur).len() >= 1,
        merge_from(s, idx, cur)[0].0 == cur.0,
        merge_from(s, idx, cur)[0].1 >= cur.1,
        sorted_by_start(merge_from(s, idx, cur)),
        forall|a: int, b: int| 0 <= a < b < merge_from(s, idx, cur).len()
            ==> (#[trigger] merge_from(s, idx, cur)[b]).0
                > (#[trigger] merge_from(s, idx, cur)[a]).1,
    decreases s.len() - idx,
{
    let out = merge_from(s, idx, cur);
    if idx >= s.len() {
    } else if s[idx].0 <= cur.1 {
        let cur2 = (cur.0, if s[idx].1 >= cur.1 { s[idx].1 } else { cur.1 });
        lemma_merge_from_properties(s, idx + 1, cur2);
    } else {
        let rest = merge_from(s, idx + 1, s[idx]);
        assert forall|qi: int| idx + 1 <= qi < s.len()
            implies (#[trigger] s[qi]).0 >= s[idx].0 by {}
        lemma_merge_from_properties(s, idx + 1, s[idx]);
        assert(out == seq![cur] + rest);
        assert forall|a: int, b: int| 0 <= a < b < out.len()
            implies (#[trigger] out[a]).0 <= (#[trigger] out[b]).0 by {
            if a == 0 {
                assert(out[b] == rest[b - 1]);
                if b - 1 > 0 {
                    assert(rest[0].0 <= rest[b - 1].0);
                }
                assert(rest[0].0 == s[idx].0);
            } else {
                assert(out[a] == rest[a - 1]);
                assert(out[b] == rest[b - 1]);
            }
        }
        assert forall|a: int, b: int| 0 <= a < b < out.len()
            implies (#[trigger] out[b]).0 > (#[trigger] out[a]).1 by {
            if a == 0 {
                assert(out[b] == rest[b - 1]);
                if b - 1 > 0 {
                    assert(rest[0].0 <= rest[b - 1].0);
                }
                assert(rest[0].0 == s[idx].0);
                assert(s[idx].0 > cur.1);
            } else {
                assert(out[a] == rest[a - 1]);
                assert(out[b] == rest[b - 1]);
            }
        }
    }
}

/// The merged output is sorted by start and pairwise disjoint: no output
/// interval starts at or before the end of an earlier one, so no two of
/// them overlap or touch.
pub proof fn lemma_merge_output_disjoint(s: Seq<(i32, i32)>)
    ensures
        sorted_by_start(merged_intervals(s)),
        forall|a: int, b: int| 0 <= a < b < merged_intervals(s).len()
            ==> (#[trigger] merged_intervals(s)[b]).0 > (#[trigger] merged_intervals(s)[a]).1,
{
    lemma_sort_by_start_sorted(s);
    let ss = sort_by_start(s);
    if ss.len() > 0 {
        assert(forall|qi: int| 1 <= qi < ss.len() ==> (#[trigger] ss[qi]).0 >= ss[0].0);
        lemma_merge_from_properties(ss, 1, ss[0]);
    }
}

/// Folding a sequence of pairwise disjoint sorted intervals merges
/// nothing: every element is emitted as it stands.
proof fn lemma_merge_from_disjoint(s: Seq<(i32, i32)>, idx: int, cur: (i32, i32))
    requires
        0 <= idx <= s.len(),
        forall|a: int, b: int| idx <= a < b < s.len() ==> (#[trigger] s[b]).0 > (#[trigger] s[a]).1,
        idx < s.len() ==> s[idx].0 > cur.1,
        forall|a: int, b: int| idx <= a < b < s.len() ==> (#[trigger] s[a]).0 <= (#[trigger] s[b]).0,
        forall|qi: int| idx < qi < s.len() ==> (#[trigger] s[qi]).0 > s[idx].1,
    ensures
        merge_from(s, idx, cur) == seq![cur] + s.subrange(idx, s.len() as int),
    decreases s.len() - idx,
{
    if idx >= s.len() {
        assert(merge_from(s, idx, cur) =~= seq![cur] + s.subrange(idx, s.len() as int));
    } else {
        assert forall|qi: int| idx + 1 < qi < s.len()
            implies (#[trigger] s[qi]).0 > s[idx + 1].1 by {}
        lemma_merge_from_disjoint(s, idx + 1, s[idx]);
        assert(merge_from(s, idx, cur) == seq![cur] + merge_from(s, idx + 1, s[idx]));
        assert(seq![cur] + (seq![s[idx]] + s.subrange(idx + 1, s.len() as int))
            =~= seq![cur] + s.subrange(idx, s.len() as int));
    }
}

/// Merging is idempotent: running the merge on its own output returns the
/// same sequence unchanged.
pub proof fn lemma_merge_idempotent(s: Seq<(i32, i32)>)
    ensures
        merged_intervals(merged_intervals(s)) == merged_intervals(s),
{
    let y = merged_intervals(s);
    lemma_merge_output_disjoint(s);
    lemma_sort_of_sorted(y);
    if y.len() > 0 {
        assert forall|qi: int| 1 < qi < y.len() implies (#[trigger] y[qi]).0 > y[1].1 by {}
        if y.len() > 1 {
            lemma_merge_from_disjoint(y, 1, y[0]);
            assert(seq![y[0]] + y.subrange(1, y.len() as int) =~= y);
        } else {
            assert(merge_from(y, 1, y[0]) == seq![y[0]]);
            assert(seq![y[0]] =~= y);
        }
        assert(merge_sorted(y) == y);
    }
}

/// Stable insertion sort of the input by interval start.
fn sort_intervals(v: &[(i32, i32)]) -> (r: Vec<(i32, i32)>)
    ensures
        r@ == sort_by_start(v@),
        r@.len() == v@.len(),
{
    let mut out: Vec<(i32, i32)> = Vec::new();
    let mut idx: usize = 0;
    while idx < v.len()
        invariant
            idx <= v@.len(),
            out@ == sort_by_start(v@.subrange(0, idx as int)),
            out@.len() == idx,
        decreases v@.len() - idx,
    {
        let x = v[idx];
        proof {
            lemma_sort_by_start_sorted(v@.subrange(0, idx as int));
        }
        let mut p: usize = 0;
        while p < out.len() && out[p].0 <= x.0
            invariant
                p <= out@.len(),
                sorted_by_start(out@),
                forall|qi: int| 0 <= qi < p ==> (#[trigger] out@[qi]).0 <= x.0,
            decreases out@.len() - p,
        {
            p = p + 1;
        }
        let ghost pre = out@;
        out.insert(p, x);
        proof {
            lemma_insert_by_start_at(pre, x, p as int);
            assert(v@.subrange(0, idx as int + 1).drop_last() =~= v@.subrange(0, idx as int));
            assert(v@.subrange(0, idx as int + 1).last() == v@[idx as int]);
            assert(sort_by_start(v@.subrange(0, idx as int + 1))
                == insert_by_start(pre, x));
        }
        idx = idx + 1;
    }
    proof {
        assert(v@.subrange(0, v@.len() as int) =~= v@);
    }
    out
}

/// Merges the intervals into the minimal sorted set of pairwise
/// non-overlapping intervals covering the same ranges: a sort by start
/// followed by a left-to-right fold in which touching intervals merge.
pub fn merge_intervals(intervals: &[(i32, i32)]) -> (r: Vec<(i32, i32)>)
    ensures
        r@ == merged_intervals(intervals@),
{
    if intervals.is_empty() {
        proof {
            assert(sort_by_start(intervals@).len() == 0);
        }
        return Vec::new();
    }
    let sorted = sort_intervals(intervals);
    let ghost ss = sorted@;
    let mut result: Vec<(i32, i32)> = Vec::new();
    let mut cur = sorted[0];
    let mut idx: usize = 1;
    while idx < sorted.len()
        invariant
            sorted@ == ss,
            ss == sort_by_start(intervals@),
            ss.len() == intervals@.len(),
            ss.len() >= 1,
            1 <= idx <= ss.len(),
            result@ + merge_from(ss, idx as int, cur) == merge_from(ss, 1, ss[0]),
        decreases ss.len() - idx,
    {
        let nxt = sorted[idx];
        if nxt.0 <= cur.1 {
            let newend = if nxt.1 >= cur.1 { nxt.1 } else { cur.1 };
            proof {
                assert(merge_from(ss, idx as int, cur)
                    == merge_from(ss, idx as int + 1, (cur.0, newend)));
            }
            cur = (cur.0, newend);
        } else {
            proof {
                assert(merge_from(ss, idx as int, cur)
                    == seq![cur] + merge_from(ss, idx as int + 1, nxt));
                assert((result@ + seq![cur]) + merge_from(ss, idx as int + 1, nxt)
                    =~= result@ + (seq![cur] + merge_from(ss, idx as int + 1, nxt)));
            }
            result.push(cur);
            cur = nxt;
        }
        idx = idx + 1;
    }
    proof {
        assert(merge_from(ss, ss.len() as int, cur) == seq![cur]);
        assert(result@ + seq![cur] =~= result@.push(cur));
    }
    result.push(cur);
    result
}

} // verus!
