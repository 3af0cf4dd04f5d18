//! Sorting (merge sort and quicksort) and inversion counting.

use vstd::prelude::*;
use vstd::seq_lib::group_to_multiset_ensures;
use vstd::seq_lib::lemma_multiset_commutative;

verus! {

broadcast use group_to_multiset_ensures;

/// A sequence is sorted in non-decreasing order.
pub open spec fn sorted(s: Seq<i64>) -> bool {
    forall|i: int, j: int| 0 <= i < j < s.len() ==> s[i] <= s[j]
}

/// How many positions of `s` hold a value strictly greater than `v`.
pub open spec fn count_gt(s: Seq<i64>, v: int) -> nat
    decreases s.len(),
{
    if s.len() == 0 {
        0
    } else {
        count_gt(s.drop_last(), v) + (if s.last() > v {
            1nat
        } else {
            0nat
        })
    }
}

/// The number of inverted pairs of `s`: positions i < j with s[i] > s[j].
pub open spec fn inversion_count(s: Seq<i64>) -> nat
    decreases s.len(),
{
    if s.len() == 0 {
        0
    } else {
        inversion_count(s.drop_last()) + count_gt(s.drop_last(), s.last() as int)
    }
}

/// The number of pairs taking one value from `s1` and one from `s2` with
/// the first strictly greater than the second.
pub open spec fn cross_inversions(s1: Seq<i64>, s2: Seq<i64>) -> nat
    decreases s2.len(),
{
    if s2.len() == 0 {
        0
    } else {
        cross_inversions(s1, s2.drop_last()) + count_gt(s1, s2.last() as int)
    }
}

pub(crate) proof fn lemma_count_gt_le(s: Seq<i64>, v: int)
    ensures
        count_gt(s, v) <= s.len(),
    decreases s.len(),
{
    if s.len() > 0 {
        lemma_count_gt_le(s.drop_last(), v);
    }
}

pub(crate) proof fn lemma_count_gt_concat(a: Seq<i64>, b: Seq<i64>, v: int)
    ensures
        count_gt(a + b, v) == count_gt(a, v) + count_gt(b, v),
    decreases b.len(),
{
    if b.len() == 0 {
        assert(a + b =~= a);
    } else {
        assert((a + b).drop_last() =~= a + b.drop_last());
        lemma_count_gt_concat(a, b.drop_last(), v);
    }
}

/// With everything before position `k` at most `v` and everything from `k`
/// on strictly greater, exactly `len - k` values exceed `v`.
pub(crate) proof fn lemma_count_gt_split(s: Seq<i64>, v: int, k: int)
    requires
        0 <= k <= s.len(),
        forall|i: int| 0 <= i < k ==> s[i] <= v,
        forall|i: int| k <= i < s.len() ==> s[i] > v,
    ensures
        count_gt(s, v) == s.len() - k,
    decreases s.len(),
{
    if s.len() == 0 {
    } else if k == s.len() {
        lemma_count_gt_split(s.drop_last(), v, k - 1);
    } else {
        lemma_count_gt_split(s.drop_last(), v, k);
    }
}

/// `count_gt` only depends on the multiset of values.
pub(crate) proof fn lemma_count_gt_multiset(s: Seq<i64>, t: Seq<i64>, v: int)
    requires
        s.to_multiset() == t.to_multiset(),
    ensures
        count_gt(s, v) == count_gt(t, v),
    decreases s.len(),
{
    if s.len() == 0 {
        assert(s.to_multiset().len() == s.len());
        assert(t.to_multiset().len() == t.len());
        assert(t.len() == 0);
    } else {
        let x = s.last();
        assert(s.to_multiset().count(x) > 0);
        assert(t.to_multiset().count(x) > 0);
        assert(t.contains(x));
        let k = choose|k: int| 0 <= k < t.len() && t[k] == x;
        lemma_count_gt_remove(t, v, k);
        assert(t[k] == x);
        assert(s.drop_last() =~= s.remove(s.len() - 1));
        assert(s.remove(s.len() - 1).to_multiset() == s.to_multiset().remove(x));
        assert(t.remove(k).to_multiset() == t.to_multiset().remove(x));
        lemma_count_gt_multiset(s.drop_last(), t.remove(k), v);
        lemma_count_gt_remove(s, v, s.len() - 1);
    }
}

pub(crate) proof fn lemma_count_gt_remove(s: Seq<i64>, v: int, k: int)
    requires
        0 <= k < s.len(),
    ensures
        count_gt(s, v) == count_gt(s.remove(k), v) + (if s[k] > v {
            1nat
        } else {
            0nat
        }),
{
    let a = s.take(k);
    let m = seq![s[k]];
    let b = s.skip(k + 1);
    assert(s =~= a + m + b);
    assert(s.remove(k) =~= a + b);
    lemma_count_gt_concat(a + m, b, v);
    lemma_count_gt_concat(a, m, v);
    lemma_count_gt_concat(a, b, v);
    assert(m.drop_last() =~= Seq::<i64>::empty());
    assert(count_gt(Seq::<i64>::empty(), v) == 0);
    assert(m.last() == s[k]);
}

/// `cross_inversions` only depends on the multisets of both sides.
proof fn lemma_cross_inversions_multiset(s1: Seq<i64>, t1: Seq<i64>, s2: Seq<i64>, t2: Seq<i64>)
    requires
        s1.to_multiset() == t1.to_multiset(),
        s2.to_multiset() == t2.to_multiset(),
    ensures
        cross_inversions(s1, s2) == cross_inversions(t1, t2),
    decreases s2.len(),
{
    if s2.len() == 0 {
        assert(s2.to_multiset().len() == s2.len());
        assert(t2.to_multiset().len() == t2.len());
        assert(t2.len() == 0);
    } else {
        let x = s2.last();
        assert(s2.to_multiset().count(x) > 0);
        assert(t2.contains(x));
        let k = choose|k: int| 0 <= k < t2.len() && t2[k] == x;
        assert(s2.drop_last() =~= s2.remove(s2.len() - 1));
        assert(s2.remove(s2.len() - 1).to_multiset() == s2.to_multiset().remove(x));
        assert(t2.remove(k).to_multiset() == t2.to_multiset().remove(x));
        lemma_cross_inversions_multiset(s1, t1, s2.drop_last(), t2.remove(k));
        lemma_cross_inversions_remove(t1, t2, k);
        lemma_count_gt_multiset(s1, t1, x as int);
    }
}

proof fn lemma_cross_inversions_remove(s1: Seq<i64>, s2: Seq<i64>, k: int)
    requires
        0 <= k < s2.len(),
    ensures
        cross_inversions(s1, s2) == cross_inversions(s1, s2.remove(k)) + count_gt(s1, s2[k] as int),
    decreases s2.len(),
{
    if k == s2.len() - 1 {
        assert(s2.remove(k) =~= s2.drop_last());
    } else {
        assert(s2.remove(k).drop_last() =~= s2.drop_last().remove(k));
        assert(s2.remove(k).last() == s2.last());
        lemma_cross_inversions_remove(s1, s2.drop_last(), k);
    }
}

proof fn lemma_cross_inversions_take_le(s1: Seq<i64>, s2: Seq<i64>, j: int)
    requires
        0 <= j <= s2.len(),
    ensures
        cross_inversions(s1, s2.take(j)) <= cross_inversions(s1, s2),
    decreases s2.len(),
{
    if j == s2.len() {
        assert(s2.take(j) =~= s2);
    } else {
        assert(s2.drop_last().take(j) =~= s2.take(j));
        lemma_cross_inversions_take_le(s1, s2.drop_last(), j);
    }
}

proof fn lemma_cross_inversions_bound(s1: Seq<i64>, s2: Seq<i64>)
    ensures
        cross_inversions(s1, s2) <= s1.len() * s2.len(),
    decreases s2.len(),
{
    if s2.len() > 0 {
        lemma_cross_inversions_bound(s1, s2.drop_last());
        lemma_count_gt_le(s1, s2.last() as int);
        let n1 = s1.len() as int;
        let n2 = s2.len() as int;
        assert(n1 * n2 == n1 * (n2 - 1) + n1) by (nonlinear_arith)
            requires
                n2 >= 1,
        ;
    }
}

/// Splitting a sequence splits its inversions into the two sides' own
/// inversions plus the cross pairs.
proof fn lemma_inversion_concat(a: Seq<i64>, b: Seq<i64>)
    ensures
        inversion_count(a + b) == inversion_count(a) + inversion_count(b) + cross_inversions(a, b),
    decreases b.len(),
{
    if b.len() == 0 {
        assert(a + b =~= a);
    } else {
        assert((a + b).drop_last() =~= a + b.drop_last());
        lemma_inversion_concat(a, b.drop_last());
        lemma_count_gt_concat(a, b.drop_last(), b.last() as int);
    }
}

proof fn lemma_inversion_bound(s: Seq<i64>)
    ensures
        inversion_count(s) <= s.len() * s.len(),
    decreases s.len(),
{
    if s.len() > 0 {
        lemma_inversion_bound(s.drop_last());
        lemma_count_gt_le(s.drop_last(), s.last() as int);
        let n = s.len() as int;
        assert((n - 1) * (n - 1) + (n - 1) <= n * n) by (nonlinear_arith)
            requires
                n >= 1,
        ;
    }
}

/// Merges two sorted slices into one sorted vector holding the values of both.
pub fn merge(s1: &[i64], s2: &[i64]) -> (res: Vec<i64>)
    requires
        sorted(s1@),
        sorted(s2@),
    ensures
        sorted(res@),
        res@.to_multiset() == s1@.to_multiset().add(s2@.to_multiset()),
        res@.len() == s1@.len() + s2@.len(),
{

    let mut res: Vec<i64> = Vec::new();
    let mut i1: usize = 0;
    let mut i2: usize = 0;
    proof {
        assert(s1@.take(0) =~= Seq::<i64>::empty());
        assert(s2@.take(0) =~= Seq::<i64>::empty());
        assert(res@.to_multiset() =~= s1@.take(0).to_multiset().add(s2@.take(0).to_multiset()));
    }
    while i1 < s1.len() || i2 < s2.len()
        invariant
            sorted(s1@),
            sorted(s2@),
            i1 <= s1@.len(),
            i2 <= s2@.len(),
            res@.len() == i1 + i2,
            sorted(res@),
            res@.to_multiset() == s1@.take(i1 as int).to_multiset().add(
                s2@.take(i2 as int).to_multiset(),
            ),
            forall|k: int| 0 <= k < res@.len() && i1 < s1@.len() ==> res@[k] <= s1@[i1 as int],
            forall|k: int| 0 <= k < res@.len() && i2 < s2@.len() ==> res@[k] <= s2@[i2 as int],
        decreases s1@.len() + s2@.len() - i1 - i2,
    {
        let ghost old_res = res@;
        if i2 >= s2.len() || (i1 < s1.len() && s1[i1] <= s2[i2]) {
            let v: i64 = s1[i1];
            res.push(v);
            proof {
                assert(s1@.take(i1 + 1) =~= s1@.take(i1 as int).push(v));
                assert(old_res.push(v).to_multiset() == old_res.to_multiset().insert(v));
                assert(s1@.take(i1 as int).push(v).to_multiset() == s1@.take(
                    i1 as int,
                ).to_multiset().insert(v));
                assert(res@.to_multiset() =~= s1@.take(i1 + 1).to_multiset().add(
                    s2@.take(i2 as int).to_multiset(),
                ));
            }
            i1 = i1 + 1;
        } else {
            let v: i64 = s2[i2];
            res.push(v);
            proof {
                assert(s2@.take(i2 + 1) =~= s2@.take(i2 as int).push(v));
                assert(old_res.push(v).to_multiset() == old_res.to_multiset().insert(v));
                assert(s2@.take(i2 as int).push(v).to_multiset() == s2@.take(
                    i2 as int,
                ).to_multiset().insert(v));
                assert(res@.to_multiset() =~= s1@.take(i1 as int).to_multiset().add(
                    s2@.take(i2 + 1).to_multiset(),
                ));
            }
            i2 = i2 + 1;
        }
    }
    proof {
        assert(s1@.take(i1 as int) =~= s1@);
        assert(s2@.take(i2 as int) =~= s2@);
    }
    res
}

/// Sorts a slice by recursive halving and merging.
pub fn merge_sort(slice: &[i64]) -> (res: Vec<i64>)
    ensures
        sorted(res@),
        res@.to_multiset() == slice@.to_multiset(),
        res@.len() == slice@.len(),
    decreases slice@.len(),
{
    if slice.len() <= 1 {
        let mut out: Vec<i64> = Vec::new();
        if slice.len() == 1 {
            out.push(slice[0]);
            proof {
                assert(slice@ =~= Seq::<i64>::empty().push(slice@[0]));
            }
        } else {
            proof {
                assert(slice@ =~= Seq::<i64>::empty());
            }
        }
        proof {
            assert(out@.to_multiset() =~= slice@.to_multiset());
        }
        return out;
    }
    let pivot: usize = slice.len() / 2;
    let left = merge_sort(&slice[0..pivot]);
    let right = merge_sort(&slice[pivot..slice.len()]);
    let res = merge(left.as_slice(), right.as_slice());
    proof {
        assert(slice@ =~= slice@.take(pivot as int) + slice@.skip(pivot as int));
        lemma_multiset_commutative(slice@.take(pivot as int), slice@.skip(pivot as int));
        assert(slice@.subrange(0, pivot as int) =~= slice@.take(pivot as int));
        assert(slice@.subrange(pivot as int, slice@.len() as int) =~= slice@.skip(pivot as int));
    }
    res
}

/// Sorts a slice by partitioning around its first value and recursing.
pub fn quick_sorted(values: &[i64]) -> (res: Vec<i64>)
    ensures
        sorted(res@),
        res@.to_multiset() == values@.to_multiset(),
        res@.len() == values@.len(),
    decreases values@.len(),
{
    if values.len() == 0 {
        let out: Vec<i64> = Vec::new();
        proof {
            assert(out@.to_multiset() =~= values@.to_multiset());
        }
        return out;
    }
    let v0: i64 = values[0];
    let mut lowers: Vec<i64> = Vec::new();
    let mut equals: Vec<i64> = Vec::new();
    let mut highers: Vec<i64> = Vec::new();
    let mut idx: usize = 0;
    proof {
        assert(values@.take(0) =~= Seq::<i64>::empty());
        assert(lowers@.to_multiset().add(equals@.to_multiset()).add(highers@.to_multiset())
            =~= values@.take(0).to_multiset());
    }
    while idx < values.len()
        invariant
            idx <= values@.len(),
            0 < values@.len(),
            v0 == values@[0],
            lowers@.to_multiset().add(equals@.to_multiset()).add(highers@.to_multiset())
                == values@.take(idx as int).to_multiset(),
            lowers@.len() + equals@.len() + highers@.len() == idx,
            forall|k: int| 0 <= k < lowers@.len() ==> lowers@[k] < v0,
            forall|k: int| 0 <= k < equals@.len() ==> equals@[k] == v0,
            forall|k: int| 0 <= k < highers@.len() ==> highers@[k] > v0,
            idx >= 1 ==> equals@.len() >= 1,
        decreases values@.len() - idx,
    {
        let ghost old_l = lowers@;
        let ghost old_e = equals@;
        let ghost old_h = highers@;
        let v: i64 = values[idx];
        if v < v0 {
            lowers.push(v);
            proof {
                assert(old_l.push(v).to_multiset() == old_l.to_multiset().insert(v));
                assert(lowers@.to_multiset().add(old_e.to_multiset()).add(old_h.to_multiset())
                    =~= old_l.to_multiset().add(old_e.to_multiset()).add(
                    old_h.to_multiset(),
                ).insert(v));
            }
        } else if v == v0 {
            equals.push(v);
            proof {
                assert(old_e.push(v).to_multiset() == old_e.to_multiset().insert(v));
                assert(old_l.to_multiset().add(equals@.to_multiset()).add(old_h.to_multiset())
                    =~= old_l.to_multiset().add(old_e.to_multiset()).add(
                    old_h.to_multiset(),
                ).insert(v));
            }
        } else {
            highers.push(v);
            proof {
                assert(old_h.push(v).to_multiset() == old_h.to_multiset().insert(v));
                assert(old_l.to_multiset().add(old_e.to_multiset()).add(highers@.to_multiset())
                    =~= old_l.to_multiset().add(old_e.to_multiset()).add(
                    old_h.to_multiset(),
                ).insert(v));
            }
        }
        proof {
            assert(values@.take(idx + 1) =~= values@.take(idx as int).push(v));
            assert(values@.take(idx as int).push(v).to_multiset() == values@.take(
                idx as int,
            ).to_multiset().insert(v));
        }
        idx = idx + 1;
    }
    proof {
        assert(values@.take(values@.len() as int) =~= values@);
    }
    let sorted_lowers = quick_sorted(lowers.as_slice());
    let sorted_highers = quick_sorted(highers.as_slice());
    proof {
        assert forall|i: int| 0 <= i < sorted_lowers@.len() implies sorted_lowers@[i] < v0 by {
            let x = sorted_lowers@[i];
            assert(sorted_lowers@.contains(x));
            assert(sorted_lowers@.to_multiset().count(x) > 0);
            assert(lowers@.to_multiset().count(x) > 0);
            assert(lowers@.contains(x));
        }
        assert forall|i: int| 0 <= i < sorted_highers@.len() implies sorted_highers@[i] > v0 by {
            let x = sorted_highers@[i];
            assert(sorted_highers@.contains(x));
            assert(sorted_highers@.to_multiset().count(x) > 0);
            assert(highers@.to_multiset().count(x) > 0);
            assert(highers@.contains(x));
        }
    }
    let mut out: Vec<i64> = sorted_lowers;
    let mut k: usize = 0;
    while k < equals.len()
        invariant
            k <= equals@.len(),
            out@.len() == sorted_lowers@.len() + k,
            out@.to_multiset() == sorted_lowers@.to_multiset().add(
                equals@.take(k as int).to_multiset(),
            ),
            sorted(out@),
            forall|i: int| 0 <= i < out@.len() ==> out@[i] <= v0,
            forall|i: int| 0 <= i < equals@.len() ==> equals@[i] == v0,
            forall|i: int| 0 <= i < sorted_lowers@.len() ==> sorted_lowers@[i] < v0,
            sorted(sorted_lowers@),
            sorted_lowers@.to_multiset() == lowers@.to_multiset(),
        decreases equals@.len() - k,
    {
        let ghost old_out = out@;
        let v: i64 = equals[k];
        out.push(v);
        proof {
            assert(equals@.take(k + 1) =~= equals@.take(k as int).push(v));
            assert(old_out.push(v).to_multiset() == old_out.to_multiset().insert(v));
            assert(equals@.take(k as int).push(v).to_multiset() == equals@.take(
                k as int,
            ).to_multiset().insert(v));
            assert(out@.to_multiset() =~= sorted_lowers@.to_multiset().add(
                equals@.take(k + 1).to_multiset(),
            ));
        }
        k = k + 1;
    }
    proof {
        assert(equals@.take(equals@.len() as int) =~= equals@);
    }
    let ghost mid_out = out@;
    let mut k2: usize = 0;
    while k2 < sorted_highers.len()
        invariant
            k2 <= sorted_highers@.len(),
            out@.len() == mid_out.len() + k2,
            out@.to_multiset() == mid_out.to_multiset().add(
                sorted_highers@.take(k2 as int).to_multiset(),
            ),
            sorted(out@),
            forall|i: int| 0 <= i < mid_out.len() ==> mid_out[i] <= v0,
            forall|i: int| 0 <= i < mid_out.len() ==> out@[i] == mid_out[i],
            forall|i: int|
                mid_out.len() <= i < out@.len() ==> out@[i] == sorted_highers@[i - mid_out.len()],
            forall|i: int| 0 <= i < sorted_highers@.len() ==> sorted_highers@[i] > v0,
            sorted(sorted_highers@),
        decreases sorted_highers@.len() - k2,
    {
        let ghost old_out = out@;
        let v: i64 = sorted_highers[k2];
        out.push(v);
        proof {
            assert(sorted_highers@.take(k2 + 1) =~= sorted_highers@.take(k2 as int).push(v));
            assert(old_out.push(v).to_multiset() == old_out.to_multiset().insert(v));
            assert(sorted_highers@.take(k2 as int).push(v).to_multiset() == sorted_highers@.take(
                k2 as int,
            ).to_multiset().insert(v));
            assert(out@.to_multiset() =~= mid_out.to_multiset().add(
                sorted_highers@.take(k2 + 1).to_multiset(),
            ));
            assert forall|i: int, j: int| 0 <= i < j < out@.len() implies out@[i] <= out@[j] by {
                if j == out@.len() - 1 {
                    assert(out@[j] == sorted_highers@[k2 as int]);
                    if i < mid_out.len() {
                        assert(out@[i] == mid_out[i]);
                        assert(sorted_highers@[k2 as int] > v0);
                    } else {
                        assert(out@[i] == sorted_highers@[i - mid_out.len()]);
                    }
                } else {
                    assert(out@[i] == old_out[i] && out@[j] == old_out[j]);
                }
            }
        }
        k2 = k2 + 1;
    }
    proof {
        assert(sorted_highers@.take(sorted_highers@.len() as int) =~= sorted_highers@);
        assert(out@.to_multiset() =~= values@.to_multiset());
    }
    out
}

/// Merges two sorted slices, adding to `accum` one count for every pair
/// with the left value strictly greater than the right value.
fn merge_inversions(s1: &[i64], s2: &[i64], accum: u64) -> (res: (Vec<i64>, u64))
    requires
        sorted(s1@),
        sorted(s2@),
        accum + cross_inversions(s1@, s2@) <= u64::MAX,
    ensures
        sorted(res.0@),
        res.0@.to_multiset() == s1@.to_multiset().add(s2@.to_multiset()),
        res.0@.len() == s1@.len() + s2@.len(),
        res.1 == accum + cross_inversions(s1@, s2@),
{

    let mut res: Vec<i64> = Vec::new();
    let mut i1: usize = 0;
    let mut i2: usize = 0;
    let mut counter: u64 = 0;
    proof {
        assert(s1@.take(0) =~= Seq::<i64>::empty());
        assert(s2@.take(0) =~= Seq::<i64>::empty());
        assert(res@.to_multiset() =~= s1@.take(0).to_multiset().add(s2@.take(0).to_multiset()));
    }
    while i1 < s1.len() || i2 < s2.len()
        invariant
            sorted(s1@),
            sorted(s2@),
            i1 <= s1@.len(),
            i2 <= s2@.len(),
            res@.len() == i1 + i2,
            sorted(res@),
            res@.to_multiset() == s1@.take(i1 as int).to_multiset().add(
                s2@.take(i2 as int).to_multiset(),
            ),
            forall|k: int| 0 <= k < res@.len() && i1 < s1@.len() ==> res@[k] <= s1@[i1 as int],
            forall|k: int| 0 <= k < res@.len() && i2 < s2@.len() ==> res@[k] <= s2@[i2 as int],
            i1 > 0 && i2 < s2@.len() ==> s1@[i1 - 1] <= s2@[i2 as int],
            counter == cross_inversions(s1@, s2@.take(i2 as int)),
            accum + cross_inversions(s1@, s2@) <= u64::MAX,
        decreases s1@.len() + s2@.len() - i1 - i2,
    {
        let ghost old_res = res@;
        if i2 >= s2.len() || (i1 < s1.len() && s1[i1] <= s2[i2]) {
            let v: i64 = s1[i1];
            res.push(v);
            proof {
                assert(s1@.take(i1 + 1) =~= s1@.take(i1 as int).push(v));
                assert(old_res.push(v).to_multiset() == old_res.to_multiset().insert(v));
                assert(s1@.take(i1 as int).push(v).to_multiset() == s1@.take(
                    i1 as int,
                ).to_multiset().insert(v));
                assert(res@.to_multiset() =~= s1@.take(i1 + 1).to_multiset().add(
                    s2@.take(i2 as int).to_multiset(),
                ));
            }
            i1 = i1 + 1;
        } else {
            let v: i64 = s2[i2];
            proof {
                assert(i1 == s1@.len() || s1@[i1 as int] > v);
                assert(forall|i: int| 0 <= i < i1 ==> s1@[i] <= v);
                assert(forall|i: int| i1 <= i < s1@.len() ==> s1@[i] >= s1@[i1 as int]);
                lemma_count_gt_split(s1@, v as int, i1 as int);
                assert(s2@.take(i2 + 1) =~= s2@.take(i2 as int).push(v));
                assert(s2@.take(i2 + 1).drop_last() =~= s2@.take(i2 as int));
                lemma_cross_inversions_take_le(s1@, s2@, i2 + 1);
            }
            counter = counter + (s1.len() - i1) as u64;
            res.push(v);
            proof {
                assert(old_res.push(v).to_multiset() == old_res.to_multiset().insert(v));
                assert(s2@.take(i2 as int).push(v).to_multiset() == s2@.take(
                    i2 as int,
                ).to_multiset().insert(v));
                assert(res@.to_multiset() =~= s1@.take(i1 as int).to_multiset().add(
                    s2@.take(i2 + 1).to_multiset(),
                ));
            }
            i2 = i2 + 1;
        }
    }
    proof {
        assert(s1@.take(i1 as int) =~= s1@);
        assert(s2@.take(i2 as int) =~= s2@);
    }
    (res, counter + accum)
}

/// Sorts a slice and counts its inverted pairs.
pub fn number_of_inversions(slice: &[i64]) -> (res: (Vec<i64>, u64))
    requires
        slice@.len() <= 0x8000_0000,
    ensures
        sorted(res.0@),
        res.0@.to_multiset() == slice@.to_multiset(),
        res.0@.len() == slice@.len(),
        res.1 == inversion_count(slice@),
    decreases slice@.len(),
{
    if slice.len() <= 1 {
        let sorted_copy = merge_sort(slice);
        proof {
            if slice@.len() == 1 {
                assert(slice@.drop_last() =~= Seq::<i64>::empty());
                assert(inversion_count(Seq::<i64>::empty()) == 0);
                assert(count_gt(Seq::<i64>::empty(), slice@.last() as int) == 0);
            }
        }
        return (sorted_copy, 0);
    }
    let pivot: usize = slice.len() / 2;
    let ghost left_part = slice@.take(pivot as int);
    let ghost right_part = slice@.skip(pivot as int);
    let (lv, li) = number_of_inversions(&slice[0..pivot]);
    let (rv, ri) = number_of_inversions(&slice[pivot..slice.len()]);
    proof {
        assert(slice@.subrange(0, pivot as int) =~= left_part);
        assert(slice@.subrange(pivot as int, slice@.len() as int) =~= right_part);
        assert(slice@ =~= left_part + right_part);
        lemma_multiset_commutative(left_part, right_part);
        lemma_inversion_concat(left_part, right_part);
        lemma_inversion_bound(slice@);
        lemma_inversion_bound(left_part);
        lemma_inversion_bound(right_part);
        lemma_cross_inversions_multiset(lv@, left_part, rv@, right_part);
        assert(slice@.len() * slice@.len() <= 0x8000_0000 * 0x8000_0000) by (nonlinear_arith)
            requires
                slice@.len() <= 0x8000_0000,
        ;
    }
    merge_inversions(lv.as_slice(), rv.as_slice(), li + ri)
}

} // verus!
