//! Binary search, majority counting, and point-in-segment counting.

use crate::sort::{count_gt, lemma_count_gt_multiset, merge_sort, sorted};
use vstd::prelude::*;

verus! {

/// Finds an index of `element` in the sorted slice, or `None` when the
/// element does not occur.
pub fn binary_search(slice: &[i64], element: &i64) -> (res: Option<usize>)
    requires
        slice@.len() >= 1,
        sorted(slice@),
    ensures
        match res {
            Some(i) => i < slice@.len() && slice@[i as int] == *element,
            None => forall|t: int| 0 <= t < slice@.len() ==> slice@[t] != *element,
        },
{
    let e: i64 = *element;
    let mut min: usize = 0;
    let mut max: usize = slice.len() - 1;
    while min <= max
        invariant
            e == *element,
            sorted(slice@),
            slice@.len() >= 1,
            max < slice@.len(),
            min <= slice@.len(),
            forall|t: int| 0 <= t < min ==> slice@[t] != e,
            forall|t: int| max < t < slice@.len() ==> slice@[t] != e,
        decreases max + 1 - min,
    {
        let i: usize = min + (max - min) / 2;
        let probe: i64 = slice[i];
        if e < probe {
            if i == 0 {
                return None;
            }
            max = i - 1;
        } else if e == probe {
            if i + 1 < slice.len() && slice[i + 1] == e {
                return Some(i + 1);
            }
            return Some(i);
        } else {
            min = i + 1;
        }
    }
    None
}

/// Runs `binary_search` for every value of `to_find` in turn.
pub fn binary_search_all(slice: &[i64], to_find: &[i64]) -> (res: Vec<Option<usize>>)
    requires
        slice@.len() >= 1,
        sorted(slice@),
    ensures
        res@.len() == to_find@.len(),
        forall|t: int|
            0 <= t < to_find@.len() ==> match #[trigger] res@[t] {
                Some(i) => i < slice@.len() && slice@[i as int] == to_find@[t],
                None => !slice@.contains(to_find@[t]),
            },
{
    let mut res: Vec<Option<usize>> = Vec::new();
    let mut t: usize = 0;
    while t < to_find.len()
        invariant
            t <= to_find@.len(),
            slice@.len() >= 1,
            sorted(slice@),
            res@.len() == t,
            forall|u: int|
                0 <= u < t ==> match #[trigger] res@[u] {
                    Some(i) => i < slice@.len() && slice@[i as int] == to_find@[u],
                    None => !slice@.contains(to_find@[u]),
                },
        decreases to_find@.len() - t,
    {
        let found = binary_search(slice, &to_find[t]);
        proof {
            if found.is_none() {
                assert(forall|j: int| 0 <= j < slice@.len() ==> slice@[j] != to_find@[t as int]);
            }
        }
        res.push(found);
        t = t + 1;
    }
    res
}

/// How many positions of `s` hold exactly the value `v`.
pub open spec fn count_occ(s: Seq<i64>, v: i64) -> nat
    decreases s.len(),
{
    if s.len() == 0 {
        0
    } else {
        count_occ(s.drop_last(), v) + (if s.last() == v {
            1nat
        } else {
            0nat
        })
    }
}

/// A value with a positive count occurs at some position.
proof fn lemma_count_occ_witness(s: Seq<i64>, v: i64)
    requires
        count_occ(s, v) > 0,
    ensures
        exists|t: int| 0 <= t < s.len() && s[t] == v,
    decreases s.len(),
{
    if s.last() == v {
        assert(s[s.len() - 1] == v);
    } else {
        lemma_count_occ_witness(s.drop_last(), v);
        let t = choose|t: int| 0 <= t < s.drop_last().len() && s.drop_last()[t] == v;
        assert(s[t] == v);
    }
}

/// Counts how many occurrences of `v` the slice holds.
fn count_value(slice: &[i64], v: i64) -> (c: usize)
    ensures
        c == count_occ(slice@, v),
{
    let mut c: usize = 0;
    let mut t: usize = 0;
    while t < slice.len()
        invariant
            t <= slice@.len(),
            c == count_occ(slice@.take(t as int), v),
            c <= t,
        decreases slice@.len() - t,
    {
        proof {
            assert(slice@.take(t + 1).drop_last() =~= slice@.take(t as int));
            assert(slice@.take(t + 1).last() == slice@[t as int]);
        }
        if slice[t] == v {
            c = c + 1;
        }
        t = t + 1;
    }
    proof {
        assert(slice@.take(slice@.len() as int) =~= slice@);
    }
    c
}

/// Reports whether the slice has a majority value: one if some value fills
/// more than half of the positions, zero otherwise.
pub fn majority_element(slice: &[i64]) -> (res: usize)
    ensures
        res == 1 <==> (exists|v: i64| #[trigger] count_occ(slice@, v) > slice@.len() / 2),
        res == 0 || res == 1,
{
    let half: usize = slice.len() / 2;
    let mut t: usize = 0;
    while t < slice.len()
        invariant
            t <= slice@.len(),
            half == slice@.len() / 2,
            forall|u: int| 0 <= u < t ==> count_occ(slice@, #[trigger] slice@[u]) <= slice@.len()
                / 2,
        decreases slice@.len() - t,
    {
        let c: usize = count_value(slice, slice[t]);
        if c > half {
            return 1;
        }
        t = t + 1;
    }
    proof {
        if exists|v: i64| #[trigger] count_occ(slice@, v) > slice@.len() / 2 {
            let v = choose|v: i64| #[trigger] count_occ(slice@, v) > slice@.len() / 2;
            lemma_count_occ_witness(slice@, v);
            let w = choose|w: int| 0 <= w < slice@.len() && slice@[w] == v;
            assert(count_occ(slice@, slice@[w]) <= slice@.len() / 2);
        }
    }
    0
}

/// How many positions of `s` hold a value at most `x`.
pub open spec fn count_le(s: Seq<i64>, x: int) -> nat {
    (s.len() - count_gt(s, x)) as nat
}

/// How many positions of `s` hold a value strictly below `x`.
pub open spec fn count_lt(s: Seq<i64>, x: int) -> nat {
    (s.len() - count_gt(s, x - 1)) as nat
}

/// The starts of a sequence of segments.
pub open spec fn starts_of(segments: Seq<(i64, i64)>) -> Seq<i64> {
    Seq::new(segments.len(), |k: int| segments[k].0)
}

/// The ends of a sequence of segments.
pub open spec fn ends_of(segments: Seq<(i64, i64)>) -> Seq<i64> {
    Seq::new(segments.len(), |k: int| segments[k].1)
}

/// How many segments contain the point `p`.
pub open spec fn count_containing(segments: Seq<(i64, i64)>, p: i64) -> nat
    decreases segments.len(),
{
    if segments.len() == 0 {
        0
    } else {
        count_containing(segments.drop_last(), p) + (if segments.last().0 <= p
            && p <= segments.last().1 {
            1nat
        } else {
            0nat
        })
    }
}

/// For valid segments, the number of segments containing a point is the
/// number of starts at or below it minus the number of ends below it.
proof fn lemma_containment_count(segments: Seq<(i64, i64)>, p: i64)
    requires
        forall|k: int| 0 <= k < segments.len() ==> (#[trigger] segments[k]).0 <= segments[k].1,
    ensures
        count_containing(segments, p) + count_lt(ends_of(segments), p as int) == count_le(
            starts_of(segments),
            p as int,
        ),
    decreases segments.len(),
{
    crate::sort::lemma_count_gt_le(starts_of(segments), p as int);
    crate::sort::lemma_count_gt_le(ends_of(segments), p as int - 1);
    if segments.len() == 0 {
    } else {
        let rest = segments.drop_last();
        assert(forall|k: int| 0 <= k < rest.len() ==> (#[trigger] rest[k]).0 <= rest[k].1);
        lemma_containment_count(rest, p);
        assert(starts_of(segments).drop_last() =~= starts_of(rest));
        assert(ends_of(segments).drop_last() =~= ends_of(rest));
        assert(starts_of(segments).last() == segments.last().0);
        assert(ends_of(segments).last() == segments.last().1);
        crate::sort::lemma_count_gt_le(starts_of(rest), p as int);
        crate::sort::lemma_count_gt_le(ends_of(rest), p as int - 1);
    }
}

/// Counts, walking a slice, the values at most `x`.
fn count_le_exec(s: &[i64], x: i64) -> (c: usize)
    ensures
        c == count_le(s@, x as int),
{
    let mut c: usize = 0;
    let mut t: usize = 0;
    while t < s.len()
        invariant
            t <= s@.len(),
            c == count_le(s@.take(t as int), x as int),
            c <= t,
        decreases s@.len() - t,
    {
        proof {
            assert(s@.take(t + 1).drop_last() =~= s@.take(t as int));
            assert(s@.take(t + 1).last() == s@[t as int]);
            crate::sort::lemma_count_gt_le(s@.take(t as int), x as int);
            crate::sort::lemma_count_gt_le(s@.take(t + 1), x as int);
        }
        if s[t] <= x {
            c = c + 1;
        }
        t = t + 1;
    }
    proof {
        assert(s@.take(s@.len() as int) =~= s@);
    }
    c
}

/// Counts, walking a slice, the values strictly below `x`.
fn count_lt_exec(s: &[i64], x: i64) -> (c: usize)
    ensures
        c == count_lt(s@, x as int),
{
    let mut c: usize = 0;
    let mut t: usize = 0;
    while t < s.len()
        invariant
            t <= s@.len(),
            c == count_lt(s@.take(t as int), x as int),
            c <= t,
        decreases s@.len() - t,
    {
        proof {
            assert(s@.take(t + 1).drop_last() =~= s@.take(t as int));
            assert(s@.take(t + 1).last() == s@[t as int]);
            crate::sort::lemma_count_gt_le(s@.take(t as int), x as int - 1);
            crate::sort::lemma_count_gt_le(s@.take(t + 1), x as int - 1);
        }
        if s[t] < x {
            c = c + 1;
        }
        t = t + 1;
    }
    proof {
        assert(s@.take(s@.len() as int) =~= s@);
    }
    c
}

/// For every query point, counts the segments that contain it, by sorting
/// the segment starts and ends once and counting ranks.
pub fn points_on_segments(segments: &[(i64, i64)], points: &[i64]) -> (res: Vec<u64>)
    requires
        forall|k: int| 0 <= k < segments@.len() ==> (#[trigger] segments@[k]).0 <= segments@[k].1,
    ensures
        res@.len() == points@.len(),
        forall|t: int|
            0 <= t < points@.len() ==> #[trigger] res@[t] == count_containing(
                segments@,
                points@[t],
            ),
{
    let mut starts: Vec<i64> = Vec::new();
    let mut ends: Vec<i64> = Vec::new();
    let mut k: usize = 0;
    proof {
        assert(starts@ =~= starts_of(segments@.take(0)));
        assert(ends@ =~= ends_of(segments@.take(0)));
    }
    while k < segments.len()
        invariant
            k <= segments@.len(),
            starts@ == starts_of(segments@.take(k as int)),
            ends@ == ends_of(segments@.take(k as int)),
        decreases segments@.len() - k,
    {
        let seg: (i64, i64) = segments[k];
        starts.push(seg.0);
        ends.push(seg.1);
        proof {
            assert(starts@ =~= starts_of(segments@.take(k + 1)));
            assert(ends@ =~= ends_of(segments@.take(k + 1)));
        }
        k = k + 1;
    }
    proof {
        assert(segments@.take(segments@.len() as int) =~= segments@);
    }
    let sorted_starts: Vec<i64> = merge_sort(starts.as_slice());
    let sorted_ends: Vec<i64> = merge_sort(ends.as_slice());
    let mut res: Vec<u64> = Vec::new();
    let mut t: usize = 0;
    while t < points.len()
        invariant
            t <= points@.len(),
            forall|kk: int|
                0 <= kk < segments@.len() ==> (#[trigger] segments@[kk]).0 <= segments@[kk].1,
            sorted_starts@.to_multiset() == starts_of(segments@).to_multiset(),
            sorted_ends@.to_multiset() == ends_of(segments@).to_multiset(),
            sorted_starts@.len() == starts_of(segments@).len(),
            sorted_ends@.len() == ends_of(segments@).len(),
            res@.len() == t,
            forall|u: int|
                0 <= u < t ==> #[trigger] res@[u] == count_containing(segments@, points@[u]),
        decreases points@.len() - t,
    {
        let p: i64 = points[t];
        let l: usize = count_le_exec(sorted_starts.as_slice(), p);
        let h: usize = count_lt_exec(sorted_ends.as_slice(), p);
        proof {
            lemma_count_gt_multiset(sorted_starts@, starts_of(segments@), p as int);
            lemma_count_gt_multiset(sorted_ends@, ends_of(segments@), p as int - 1);
            lemma_containment_count(segments@, p);
            assert(sorted_starts@.len() == starts_of(segments@).len());
            assert(sorted_ends@.len() == ends_of(segments@).len());
            assert(l - h == count_containing(segments@, p));
        }
        res.push((l - h) as u64);
        t = t + 1;
    }
    res
}

/// The squared Euclidean distance between two grid points.
pub fn distance_squared(p1: (i64, i64), p2: (i64, i64)) -> (d: i64)
    requires
        -0x2000_0000 <= p1.0 <= 0x2000_0000,
        -0x2000_0000 <= p1.1 <= 0x2000_0000,
        -0x2000_0000 <= p2.0 <= 0x2000_0000,
        -0x2000_0000 <= p2.1 <= 0x2000_0000,
    ensures
        d == (p1.0 - p2.0) * (p1.0 - p2.0) + (p1.1 - p2.1) * (p1.1 - p2.1),
{
    let xx: i64 = p1.0 - p2.0;
    let yy: i64 = p1.1 - p2.1;
    proof {
        assert(xx * xx <= 0x4000_0000 * 0x4000_0000 && xx * xx >= 0) by (nonlinear_arith)
            requires
                -0x4000_0000 <= xx <= 0x4000_0000,
        ;
        assert(yy * yy <= 0x4000_0000 * 0x4000_0000 && yy * yy >= 0) by (nonlinear_arith)
            requires
                -0x4000_0000 <= yy <= 0x4000_0000,
        ;
    }
    xx * xx + yy * yy
}

} // verus!
