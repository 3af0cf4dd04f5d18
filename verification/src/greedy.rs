//! Greedy heuristics: coin change, refueling, scheduling and ordering.

use crate::sort::{merge_sort, sorted};
use vstd::arithmetic::div_mod::lemma_fundamental_div_mod;
use vstd::pervasive::VecAdditionalExecFns;
use vstd::prelude::*;
use vstd::assert_multisets_equal;
use vstd::slice::SliceAdditionalExecFns;

verus! {

broadcast use {vstd::seq_lib::group_to_multiset_ensures, vstd::multiset::group_multiset_axioms};

/// Greedily pays `n` with coins of ten, five and one: tens first, then
/// fives, then ones.
pub fn coin_exchange(n: u64) -> (count: u64)
    ensures
        count == n / 10 + (n % 10) / 5 + (n % 10) % 5,
{
    let mut remained: u64 = n;
    let mut counter: u64 = 0;
    if remained >= 10 {
        let coins: u64 = remained / 10;
        proof {
            lemma_fundamental_div_mod(remained as int, 10);
        }
        remained = remained - coins * 10;
        counter = counter + coins;
    }
    if remained >= 5 {
        let coins: u64 = remained / 5;
        proof {
            lemma_fundamental_div_mod(remained as int, 5);
        }
        remained = remained - coins * 5;
        counter = counter + coins;
    }
    counter + remained
}

/// The total of a sequence of prize values.
pub open spec fn sum_of(s: Seq<u64>) -> int
    decreases s.len(),
{
    if s.len() == 0 {
        0
    } else {
        sum_of(s.drop_last()) + s.last()
    }
}

/// A sequence is strictly increasing.
pub open spec fn strictly_increasing(s: Seq<u64>) -> bool {
    forall|i: int, j: int| 0 <= i < j < s.len() ==> s[i] < s[j]
}

/// Splits `n` into the longest possible strictly increasing sequence of
/// positive prizes: the count `k` is largest with 1 + 2 + ... + k at most
/// `n`, and the whole sequence sums exactly to `n`.
pub fn max_prizes(n: u64) -> (res: Vec<u64>)
    ensures
        sum_of(res@) == n,
        strictly_increasing(res@),
        forall|t: int| 0 <= t < res@.len() ==> #[trigger] res@[t] >= 1,
        (res@.len() * (res@.len() + 1)) / 2 <= n,
        n < ((res@.len() + 1) * (res@.len() + 2)) / 2,
{
    let mut res: Vec<u64> = Vec::new();
    let mut remind: u64 = n;
    let mut next: u64 = 1;
    while remind != 0
        invariant
            sum_of(res@) + remind == n,
            strictly_increasing(res@),
            forall|t: int| 0 <= t < res@.len() ==> #[trigger] res@[t] >= 1,
            remind != 0 ==> next == res@.len() + 1,
            remind != 0 ==> forall|t: int| 0 <= t < res@.len() ==> #[trigger] res@[t] == t + 1,
            remind != 0 ==> sum_of(res@) * 2 == (next - 1) * next,
            remind == 0 ==> (res@.len() * (res@.len() + 1)) / 2 <= n && n < ((res@.len() + 1) * (
            res@.len() + 2)) / 2,
        decreases remind,
    {
        let ghost len = res@.len() as int;
        let ghost old_sum = sum_of(res@);
        if next > remind {
            proof {
                assert(res@.len() >= 1);
                assert(res@[len - 1] == len);
                assert(old_sum >= len) by (nonlinear_arith)
                    requires
                        old_sum * 2 == len * (len + 1),
                        len >= 0,
                ;
            }
            let last_idx: usize = res.len() - 1;
            let bumped: u64 = res[last_idx] + remind;
            let ghost old_res = res@;
            res.set(last_idx, bumped);
            proof {
                assert(res@.drop_last() =~= old_res.drop_last());
                assert(res@.last() == bumped);
                assert(sum_of(old_res) == sum_of(old_res.drop_last()) + old_res.last());
                assert(sum_of(res@) == old_sum + remind);
                assert forall|i: int, j: int|
                    0 <= i < j < res@.len() implies res@[i] < res@[j] by {
                    assert(old_res[i] == i + 1);
                }
                assert((len * (len + 1)) / 2 <= n && n < ((len + 1) * (len + 2)) / 2)
                    by (nonlinear_arith)
                    requires
                        old_sum * 2 == len * (len + 1),
                        old_sum + remind == n,
                        0 < remind < len + 1,
                        len >= 1,
                ;
            }
            remind = 0;
        } else {
            let ghost old_res = res@;
            res.push(next);
            proof {
                assert(res@.drop_last() =~= old_res);
                assert(sum_of(res@) == old_sum + next);
                assert((old_sum + next) * 2 == (next as int) * (next + 1)) by (nonlinear_arith)
                    requires
                        old_sum * 2 == (next - 1) * (next as int),
                ;
                assert(forall|t: int| 0 <= t < res@.len() ==> #[trigger] res@[t] == t + 1);
                assert forall|i: int, j: int|
                    0 <= i < j < res@.len() implies res@[i] < res@[j] by {
                    assert(res@[i] == i + 1 && res@[j] == j + 1);
                }
                assert(next < 0xffff_ffff_ffff_ffff) by (nonlinear_arith)
                    requires
                        (old_sum + next) * 2 == (next as int) * (next + 1),
                        old_sum + remind == n,
                        remind >= next,
                        n <= 0xffff_ffff_ffff_ffff,
                        next >= 1,
                        old_sum >= 0,
                ;
            }
            remind = remind - next;
            proof {
                if remind == 0 {
                    let newlen = res@.len() as int;
                    assert((newlen * (newlen + 1)) / 2 <= n && n < ((newlen + 1) * (newlen + 2))
                        / 2) by (nonlinear_arith)
                        requires
                            sum_of(res@) == n,
                            sum_of(res@) * 2 == newlen * (newlen + 1),
                            newlen >= 1,
                    ;
                }
            }
            next = next + 1;
        }
    }
    res
}

/// In a strictly increasing sequence of positive values, the value at
/// position `i` is at least `i + 1`.
proof fn lemma_increasing_at_least(s: Seq<u64>, i: int)
    requires
        strictly_increasing(s),
        forall|t: int| 0 <= t < s.len() ==> #[trigger] s[t] >= 1,
        0 <= i < s.len(),
    ensures
        s[i] >= i + 1,
    decreases i,
{
    if i > 0 {
        lemma_increasing_at_least(s, i - 1);
    }
}

/// No strictly increasing sequence of positive values can sum to `n` and
/// be longer than the greedy prize split: its length `k` always satisfies
/// k * (k + 1) / 2 <= n.
pub proof fn lemma_prize_count_maximal(s: Seq<u64>, n: int)
    requires
        strictly_increasing(s),
        forall|t: int| 0 <= t < s.len() ==> #[trigger] s[t] >= 1,
        sum_of(s) == n,
    ensures
        (s.len() * (s.len() + 1)) / 2 <= n,
    decreases s.len(),
{
    if s.len() > 0 {
        let shorter = s.drop_last();
        assert(strictly_increasing(shorter));
        assert(forall|t: int| 0 <= t < shorter.len() ==> #[trigger] shorter[t] >= 1);
        lemma_prize_count_maximal(shorter, sum_of(shorter));
        lemma_increasing_at_least(s, s.len() - 1);
        let k = s.len() as int;
        assert((k * (k + 1)) / 2 <= ((k - 1) * k) / 2 + k) by (nonlinear_arith)
            requires
                k >= 1,
        ;
    }
}

/// The greedy refueling walk: from stop `idx` on, refuel whenever the next
/// stop lies beyond the current reach, counting the refuels; returns the
/// final count and reach.
pub open spec fn greedy_refuels(stops: Seq<u64>, gas: int, idx: int, reach: int, cnt: nat) -> (
    nat,
    int,
)
    decreases stops.len() - idx,
{
    if idx < 0 || idx + 1 >= stops.len() {
        (cnt, reach)
    } else {
        let p = stops[idx] as int;
        let nxt = stops[idx + 1] as int;
        if p <= reach && reach < nxt {
            greedy_refuels(stops, gas, idx + 1, p + gas, (cnt + 1) as nat)
        } else {
            greedy_refuels(stops, gas, idx + 1, reach, cnt)
        }
    }
}

/// Counts the refuels of the greedy strategy on the way to `distance`:
/// the trip's end is appended to the stops, and the walk refuels at the
/// last stop within reach whenever the next one lies beyond it. `None`
/// when the walk's final reach still falls short of the distance.
pub fn gas_stations(distance: u64, gas_distance: u64, stations: &mut Vec<u64>) -> (res: Option<
    u64,
>)
    requires
        distance <= 0x7fff_ffff_ffff_ffff,
        gas_distance <= 0x7fff_ffff_ffff_ffff,
        forall|i: int|
            0 <= i < old(stations)@.len() ==> #[trigger] old(stations)@[i]
                <= 0x7fff_ffff_ffff_ffff,
    ensures
        old(stations)@.len() == 0 ==> final (stations)@ == old(stations)@ && res == (
        if gas_distance >= distance {
            Some(0u64)
        } else {
            None::<u64>
        }),
        old(stations)@.len() > 0 ==> {
            let walked = old(stations)@.push(distance);
            let outcome = greedy_refuels(walked, gas_distance as int, 0, gas_distance as int, 0);
            final (stations)@ == walked && res == (if outcome.1 >= distance {
                Some(outcome.0 as u64)
            } else {
                None::<u64>
            })
        },
{
    if stations.len() == 0 {
        return if gas_distance >= distance {
            Some(0)
        } else {
            None
        };
    }
    stations.push(distance);
    let ghost walked = stations@;
    let mut counter: u64 = 0;
    let mut max_distance: u64 = gas_distance;
    let mut i: usize = 0;
    while i < stations.len() - 1
        invariant
            stations@ == walked,
            walked.len() >= 2,
            gas_distance <= 0x7fff_ffff_ffff_ffff,
            forall|t: int| 0 <= t < walked.len() ==> #[trigger] walked[t] <= 0x7fff_ffff_ffff_ffff,
            i + 1 <= walked.len(),
            counter <= i,
            greedy_refuels(walked, gas_distance as int, i as int, max_distance as int, counter as nat)
                == greedy_refuels(walked, gas_distance as int, 0, gas_distance as int, 0),
        decreases walked.len() - i,
    {
        let p: u64 = stations[i];
        let nxt: u64 = stations[i + 1];
        if p <= max_distance && max_distance < nxt {
            counter = counter + 1;
            max_distance = p + gas_distance;
        }
        i = i + 1;
    }
    if max_distance >= distance {
        Some(counter)
    } else {
        None
    }
}

/// A sequence is sorted in non-increasing order.
pub open spec fn sorted_desc(s: Seq<i64>) -> bool {
    forall|i: int, j: int| 0 <= i < j < s.len() ==> s[i] >= s[j]
}

/// The sum of the first `n` pairwise products of two sequences.
pub open spec fn dot_prefix(a: Seq<i64>, b: Seq<i64>, n: int) -> int
    decreases n,
{
    if n <= 0 {
        0
    } else {
        dot_prefix(a, b, n - 1) + a[n - 1] * b[n - 1]
    }
}

/// The prefix dot product of boundedly large values stays boundedly large.
proof fn lemma_dot_prefix_bound(a: Seq<i64>, b: Seq<i64>, n: int)
    requires
        0 <= n <= a.len(),
        n <= b.len(),
        forall|t: int| 0 <= t < a.len() ==> -0x10_0000 <= #[trigger] a[t] <= 0x10_0000,
        forall|t: int| 0 <= t < b.len() ==> -0x10_0000 <= #[trigger] b[t] <= 0x10_0000,
    ensures
        -n * 0x100_0000_0000 <= dot_prefix(a, b, n) <= n * 0x100_0000_0000,
    decreases n,
{
    if n > 0 {
        lemma_dot_prefix_bound(a, b, n - 1);
        assert(-0x100_0000_0000 <= a[n - 1] * b[n - 1] <= 0x100_0000_0000) by (nonlinear_arith)
            requires
                -0x10_0000 <= a[n - 1] <= 0x10_0000,
                -0x10_0000 <= b[n - 1] <= 0x10_0000,
        ;
        assert((n - 1) * 0x100_0000_0000 + 0x100_0000_0000 == n * 0x100_0000_0000)
            by (nonlinear_arith);
    }
}

/// Copies a slice into a vector.
fn copy_to_vec(s: &[i64]) -> (out: Vec<i64>)
    ensures
        out@ == s@,
{
    let mut out: Vec<i64> = Vec::new();
    let mut t: usize = 0;
    proof {
        assert(out@ =~= s@.take(0));
    }
    while t < s.len()
        invariant
            t <= s@.len(),
            out@ == s@.take(t as int),
        decreases s@.len() - t,
    {
        out.push(s[t]);
        proof {
            assert(s@.take(t as int).push(s@[t as int]) =~= s@.take(t + 1));
        }
        t = t + 1;
    }
    proof {
        assert(s@.take(s@.len() as int) =~= s@);
    }
    out
}

/// Sorts a slice in place into non-increasing order.
fn sort_desc_in_place(s: &mut [i64])
    ensures
        sorted_desc(final (s)@),
        final (s)@.to_multiset() == old(s)@.to_multiset(),
        final (s)@.len() == old(s)@.len(),
{
    let copied: Vec<i64> = copy_to_vec(s);
    let ascending: Vec<i64> = merge_sort(copied.as_slice());
    let len: usize = s.len();
    let mut t: usize = 0;
    while t < len
        invariant
            t <= len,
            len == s@.len(),
            len == ascending@.len(),
            sorted(ascending@),
            ascending@.to_multiset() == old(s)@.to_multiset(),
            forall|u: int| 0 <= u < t ==> #[trigger] s@[u] == ascending@[len - 1 - u],
        decreases len - t,
    {
        s.set(t, ascending[len - 1 - t]);
        t = t + 1;
    }
    proof {
        assert(s@ =~= ascending@.reverse());
        ascending@.lemma_reverse_to_multiset();
    }
}

/// Sorts both pricing tables into non-increasing order and totals the
/// pairwise products of their aligned entries.
pub fn advertisement_revenue(profit_per_click: &mut [i64], average_clicks: &mut [i64]) -> (total:
    i64)
    requires
        old(profit_per_click)@.len() <= 0x40_0000,
        old(average_clicks)@.len() <= 0x40_0000,
        forall|t: int|
            0 <= t < old(profit_per_click)@.len() ==> -0x10_0000 <= #[trigger] old(
                profit_per_click,
            )@[t] <= 0x10_0000,
        forall|t: int|
            0 <= t < old(average_clicks)@.len() ==> -0x10_0000 <= #[trigger] old(
                average_clicks,
            )@[t] <= 0x10_0000,
    ensures
        sorted_desc(final (profit_per_click)@),
        final (profit_per_click)@.to_multiset() == old(profit_per_click)@.to_multiset(),
        sorted_desc(final (average_clicks)@),
        final (average_clicks)@.to_multiset() == old(average_clicks)@.to_multiset(),
        total == dot_prefix(
            final (profit_per_click)@,
            final (average_clicks)@,
            vstd::math::min(
                final (profit_per_click)@.len() as int,
                final (average_clicks)@.len() as int,
            ),
        ),
{
    sort_desc_in_place(profit_per_click);
    sort_desc_in_place(average_clicks);
    let n: usize = if profit_per_click.len() <= average_clicks.len() {
        profit_per_click.len()
    } else {
        average_clicks.len()
    };
    proof {
        lemma_multiset_bounds_transfer(profit_per_click@, old(profit_per_click)@);
        lemma_multiset_bounds_transfer(average_clicks@, old(average_clicks)@);
    }
    let mut total: i64 = 0;
    let mut t: usize = 0;
    while t < n
        invariant
            t <= n,
            n <= profit_per_click@.len(),
            n <= average_clicks@.len(),
            n <= 0x40_0000,
            forall|u: int|
                0 <= u < profit_per_click@.len() ==> -0x10_0000 <= #[trigger] profit_per_click@[u]
                    <= 0x10_0000,
            forall|u: int|
                0 <= u < average_clicks@.len() ==> -0x10_0000 <= #[trigger] average_clicks@[u]
                    <= 0x10_0000,
            total == dot_prefix(profit_per_click@, average_clicks@, t as int),
        decreases n - t,
    {
        proof {
            lemma_dot_prefix_bound(profit_per_click@, average_clicks@, t as int);
            assert(-0x100_0000_0000 <= profit_per_click@[t as int] * average_clicks@[t as int]
                <= 0x100_0000_0000) by (nonlinear_arith)
                requires
                    -0x10_0000 <= profit_per_click@[t as int] <= 0x10_0000,
                    -0x10_0000 <= average_clicks@[t as int] <= 0x10_0000,
            ;
            assert((t as int) * 0x100_0000_0000 <= 0x40_0000 * 0x100_0000_0000)
                by (nonlinear_arith)
                requires
                    0 <= t as int <= 0x40_0000,
            ;
        }
        total = total + profit_per_click[t] * average_clicks[t];
        t = t + 1;
    }
    total
}

/// Lexicographic order on segments: by start, then by end.
pub open spec fn lex_le(a: (u64, u64), b: (u64, u64)) -> bool {
    a.0 < b.0 || (a.0 == b.0 && a.1 <= b.1)
}

/// A sequence of segments in lexicographic order.
pub open spec fn sorted_lex(s: Seq<(u64, u64)>) -> bool {
    forall|i: int, j: int| 0 <= i < j < s.len() ==> lex_le(s[i], s[j])
}

/// The point set touches the segment.
pub open spec fn seg_covered(seg: (u64, u64), points: Seq<u64>) -> bool {
    exists|t: int| 0 <= t < points.len() && seg.0 <= #[trigger] points[t] <= seg.1
}

/// Sorts a vector of segments lexicographically by selection.
fn sort_segments(v: &mut Vec<(u64, u64)>)
    ensures
        sorted_lex(final (v)@),
        final (v)@.to_multiset() == old(v)@.to_multiset(),
        final (v)@.len() == old(v)@.len(),
{
    let len: usize = v.len();
    let mut i: usize = 0;
    while i < len
        invariant
            i <= len,
            len == v@.len(),
            v@.to_multiset() == old(v)@.to_multiset(),
            forall|a: int, b: int| 0 <= a < b < i ==> lex_le(v@[a], v@[b]),
            forall|a: int, b: int| 0 <= a < i && i <= b < len ==> lex_le(v@[a], v@[b]),
        decreases len - i,
    {
        let mut m: usize = i;
        let mut k: usize = i + 1;
        while k < len
            invariant
                i <= m < k <= len,
                len == v@.len(),
                forall|t: int| i <= t < k ==> lex_le(v@[m as int], v@[t]),
            decreases len - k,
        {
            let cand: (u64, u64) = v[k];
            let best: (u64, u64) = v[m];
            if cand.0 < best.0 || (cand.0 == best.0 && cand.1 < best.1) {
                m = k;
            }
            k = k + 1;
        }
        let vi: (u64, u64) = v[i];
        let vm: (u64, u64) = v[m];
        let ghost before = v@;
        v.set(i, vm);
        v.set(m, vi);
        proof {
            if m == i {
                assert(v@ =~= before);
            } else {
                assert(v@ == before.update(i as int, vm).update(m as int, vi));
                assert(before.update(i as int, vm).to_multiset() == before.to_multiset().insert(
                    vm,
                ).remove(vi));
                assert(v@.to_multiset() == before.update(i as int, vm).to_multiset().insert(
                    vi,
                ).remove(vm));
                assert_multisets_equal!(v@.to_multiset(), before.to_multiset());
            }
        }
        i = i + 1;
    }
}

/// Copies a slice of segments into a vector.
fn copy_segments(s: &[(u64, u64)]) -> (out: Vec<(u64, u64)>)
    ensures
        out@ == s@,
{
    let mut out: Vec<(u64, u64)> = Vec::new();
    let mut t: usize = 0;
    proof {
        assert(out@ =~= s@.take(0));
    }
    while t < s.len()
        invariant
            t <= s@.len(),
            out@ == s@.take(t as int),
        decreases s@.len() - t,
    {
        out.push(s[t]);
        proof {
            assert(s@.take(t as int).push(s@[t as int]) =~= s@.take(t + 1));
        }
        t = t + 1;
    }
    proof {
        assert(s@.take(s@.len() as int) =~= s@);
    }
    out
}

/// Sorts the segments by their starts and returns a set of points such
/// that every segment contains at least one of them: walking the sorted
/// segments, a point is emitted at the smallest end of each group of
/// mutually overlapping segments.
pub fn minimum_segments_shared_points(segments: &mut [(u64, u64)]) -> (res: Vec<u64>)
    ensures
        final (segments)@.to_multiset() == old(segments)@.to_multiset(),
        sorted_lex(final (segments)@),
        (forall|k: int|
            0 <= k < old(segments)@.len() ==> (#[trigger] old(segments)@[k]).0 <= old(
                segments,
            )@[k].1) ==> (forall|k: int|
            0 <= k < old(segments)@.len() ==> seg_covered(#[trigger] old(segments)@[k], res@)),
{
    let ghost valid = forall|k: int|
        0 <= k < old(segments)@.len() ==> (#[trigger] old(segments)@[k]).0 <= old(
            segments,
        )@[k].1;
    let mut res: Vec<u64> = Vec::new();
    if segments.len() == 0 {
        return res;
    }
    let mut sorted_segs: Vec<(u64, u64)> = copy_segments(segments);
    sort_segments(&mut sorted_segs);
    let mut t: usize = 0;
    while t < segments.len()
        invariant
            t <= segments@.len(),
            segments@.len() == sorted_segs@.len(),
            forall|u: int| 0 <= u < t ==> segments@[u] == sorted_segs@[u],
        decreases segments@.len() - t,
    {
        let val: (u64, u64) = sorted_segs[t];
        segments.set(t, val);
        t = t + 1;
    }
    proof {
        assert(segments@ =~= sorted_segs@);
    }
    let ghost sseq = segments@;
    let ghost old_seq = old(segments)@;
    proof {
        if valid {
            assert forall|k: int| 0 <= k < sseq.len() implies (#[trigger] sseq[k]).0
                <= sseq[k].1 by {
                let x = sseq[k];
                assert(sseq.contains(x));
                assert(sseq.to_multiset().count(x) > 0);
                assert(old_seq.to_multiset().count(x) > 0);
                assert(old_seq.contains(x));
            }
        }
    }
    let mut b: u64 = segments[0].1;
    let mut k: usize = 1;
    while k < segments.len()
        invariant
            1 <= k <= sseq.len(),
            segments@ == sseq,
            sorted_lex(sseq),
            valid ==> forall|u: int| 0 <= u < sseq.len() ==> (#[trigger] sseq[u]).0 <= sseq[u].1,
            valid ==> forall|u: int|
                0 <= u < k ==> seg_covered(#[trigger] sseq[u], res@) || (sseq[u].0 <= b
                    <= sseq[u].1),
        decreases sseq.len() - k,
    {
        let seg: (u64, u64) = segments[k];
        let ghost old_res = res@;
        let ghost old_b = b;
        if b < seg.0 {
            res.push(b);
            b = seg.1;
            proof {
                if valid {
                    assert(res@[res@.len() - 1] == old_b);
                    assert forall|u: int|
                        0 <= u < k + 1 implies seg_covered(#[trigger] sseq[u], res@) || (
                    sseq[u].0 <= b && b <= sseq[u].1) by {
                        if u == k {
                            assert(sseq[u].0 <= b <= sseq[u].1);
                        } else if seg_covered(sseq[u], old_res) {
                            let w = choose|w: int|
                                0 <= w < old_res.len() && sseq[u].0 <= #[trigger] old_res[w]
                                    <= sseq[u].1;
                            assert(res@[w] == old_res[w]);
                            assert(seg_covered(sseq[u], res@));
                        } else {
                            assert(sseq[u].0 <= res@[res@.len() - 1] <= sseq[u].1);
                            assert(seg_covered(sseq[u], res@));
                        }
                    }
                }
            }
        } else {
            if b > seg.1 {
                b = seg.1;
            }
            proof {
                if valid {
                    assert forall|u: int|
                        0 <= u < k + 1 implies seg_covered(#[trigger] sseq[u], res@) || (
                    sseq[u].0 <= b && b <= sseq[u].1) by {
                        if u == k {
                            assert(sseq[u].0 <= old_b);
                            assert(sseq[u].0 <= b <= sseq[u].1);
                        } else if !seg_covered(sseq[u], res@) {
                            assert(lex_le(sseq[u], sseq[k as int]));
                            assert(sseq[u].0 <= sseq[k as int].0);
                            assert(sseq[u].0 <= b <= sseq[u].1);
                        }
                    }
                }
            }
        }
        k = k + 1;
    }
    let ghost before_final = res@;
    res.push(b);
    proof {
        if valid {
            assert(res@[res@.len() - 1] == b);
            assert forall|u: int| 0 <= u < sseq.len() implies seg_covered(
                #[trigger] sseq[u],
                res@,
            ) by {
                if seg_covered(sseq[u], before_final) {
                    let w = choose|w: int|
                        0 <= w < before_final.len() && sseq[u].0 <= #[trigger] before_final[w]
                            <= sseq[u].1;
                    assert(res@[w] == before_final[w]);
                }
            }
            assert forall|kk: int| 0 <= kk < old_seq.len() implies seg_covered(
                #[trigger] old_seq[kk],
                res@,
            ) by {
                let x = old_seq[kk];
                assert(old_seq.contains(x));
                assert(old_seq.to_multiset().count(x) > 0);
                assert(sseq.to_multiset().count(x) > 0);
                assert(sseq.contains(x));
                let w = choose|w: int| 0 <= w < sseq.len() && sseq[w] == x;
                assert(seg_covered(sseq[w], res@));
            }
        }
    }
    res
}

/// The number of decimal digits of a non-negative value.
pub open spec fn num_digits(x: int) -> nat
    decreases x,
{
    if x < 10 {
        1
    } else {
        (1 + num_digits(x / 10)) as nat
    }
}

/// Ten to the `k`-th power.
pub open spec fn pow10(k: nat) -> nat
    decreases k,
{
    if k == 0 {
        1
    } else {
        10 * pow10((k - 1) as nat)
    }
}

/// The number written by the digits of `a` followed by the digits of `b`.
pub open spec fn concat_val(a: int, b: int) -> int {
    a * pow10(num_digits(b)) + b
}

/// Placing `a` before `b` writes a number at least as large as placing
/// `b` before `a`.
pub open spec fn concat_ge(a: u64, b: u64) -> bool {
    concat_val(a as int, b as int) >= concat_val(b as int, a as int)
}

/// A value below ten to the `k` has at most `k` digits.
proof fn lemma_num_digits_le(x: int, k: nat)
    requires
        x >= 0,
        k >= 1,
        x < pow10(k),
    ensures
        num_digits(x) <= k,
    decreases k,
{
    if x >= 10 {
        if k == 1 {
            assert(pow10(1nat) == 10);
        } else {
            assert(pow10(k) == 10 * pow10((k - 1) as nat));
            assert(x / 10 < pow10((k - 1) as nat)) by (nonlinear_arith)
                requires
                    x >= 0,
                    x < 10 * pow10((k - 1) as nat),
            ;
            lemma_num_digits_le(x / 10, (k - 1) as nat);
        }
    }
}

/// Powers of ten grow with the exponent.
proof fn lemma_pow10_mono(a: nat, b: nat)
    requires
        a <= b,
    ensures
        pow10(a) <= pow10(b),
    decreases b,
{
    if a < b {
        lemma_pow10_mono(a, (b - 1) as nat);
    }
}

/// Counts the decimal digits of `x`.
fn num_digits_exec(x: u64) -> (nd: u64)
    requires
        x <= 999_999_999,
    ensures
        nd == num_digits(x as int),
        1 <= nd <= 9,
{
    proof {
        reveal_with_fuel(pow10, 11);
        assert(pow10(9nat) == 1_000_000_000);
        lemma_num_digits_le(x as int, 9nat);
    }
    let mut d: u64 = 1;
    let mut y: u64 = x;
    while y >= 10
        invariant
            d >= 1,
            num_digits(x as int) == num_digits(y as int) + d - 1,
            num_digits(x as int) <= 9,
        decreases y,
    {
        y = y / 10;
        d = d + 1;
    }
    d
}

/// Computes ten to the `k`-th power.
fn pow10_exec(k: u64) -> (p: u64)
    requires
        k <= 9,
    ensures
        p == pow10(k as nat),
{
    proof {
        reveal_with_fuel(pow10, 11);
        assert(pow10(9nat) == 1_000_000_000);
    }
    let mut p: u64 = 1;
    let mut i: u64 = 0;
    while i < k
        invariant
            i <= k,
            k <= 9,
            p == pow10(i as nat),
            pow10(9nat) == 1_000_000_000,
        decreases k - i,
    {
        proof {
            lemma_pow10_mono((i + 1) as nat, 9nat);
        }
        p = p * 10;
        i = i + 1;
    }
    p
}

/// Writes the digits of `a` followed by the digits of `b` as one number.
fn concat_exec(a: u64, b: u64) -> (r: u64)
    requires
        a <= 999_999_999,
        b <= 999_999_999,
    ensures
        r == concat_val(a as int, b as int),
{
    let nd: u64 = num_digits_exec(b);
    let p: u64 = pow10_exec(nd);
    proof {
        reveal_with_fuel(pow10, 11);
        lemma_pow10_mono(nd as nat, 9nat);
        assert(pow10(9nat) == 1_000_000_000);
        assert(a * p <= 999_999_999 * 1_000_000_000) by (nonlinear_arith)
            requires
                a <= 999_999_999,
                0 <= p <= 1_000_000_000,
        ;
    }
    a * p + b
}

/// Compares two values by which order of their digit strings writes the
/// larger number.
fn concat_ge_exec(a: u64, b: u64) -> (r: bool)
    requires
        a <= 999_999_999,
        b <= 999_999_999,
    ensures
        r == concat_ge(a, b),
{
    let ab: u64 = concat_exec(a, b);
    let ba: u64 = concat_exec(b, a);
    ab >= ba
}

/// Ten to a digit count is at least ten.
proof fn lemma_pow10_digits_lower(x: int)
    requires
        x >= 0,
    ensures
        pow10(num_digits(x)) >= 10,
        num_digits(x) >= 1,
{
    assert(pow10(0nat) == 1);
    assert(pow10(1nat) == 10);
    lemma_pow10_mono(1nat, num_digits(x));
}

/// The concatenation order is transitive on bounded values.
pub proof fn lemma_concat_ge_transitive(a: u64, b: u64, c: u64)
    requires
        concat_ge(a, b),
        concat_ge(b, c),
    ensures
        concat_ge(a, c),
{
    let pa = pow10(num_digits(a as int)) as int;
    let pb = pow10(num_digits(b as int)) as int;
    let pc = pow10(num_digits(c as int)) as int;
    lemma_pow10_digits_lower(a as int);
    lemma_pow10_digits_lower(b as int);
    lemma_pow10_digits_lower(c as int);
    // the order compares the values scaled by one less than each power
    assert((a as int) * (pb - 1) >= (b as int) * (pa - 1)) by (nonlinear_arith)
        requires
            (a as int) * pb + b >= (b as int) * pa + a,
    ;
    assert((b as int) * (pc - 1) >= (c as int) * (pb - 1)) by (nonlinear_arith)
        requires
            (b as int) * pc + c >= (c as int) * pb + b,
    ;
    if b == 0 {
        assert((c as int) * (pb - 1) <= 0) by (nonlinear_arith)
            requires
                b == 0,
                (b as int) * (pc - 1) >= (c as int) * (pb - 1),
        ;
        assert(c == 0) by (nonlinear_arith)
            requires
                c >= 0,
                pb >= 10,
                (c as int) * (pb - 1) <= 0,
        ;
        assert((a as int) * (pc - 1) >= (c as int) * (pa - 1)) by (nonlinear_arith)
            requires
                c == 0,
                a >= 0,
                pc >= 10,
        ;
    } else {
        assert((b as int) * (pb - 1) >= 9) by (nonlinear_arith)
            requires
                b >= 1,
                pb >= 10,
        ;
        assert(((a as int) * (pc - 1)) * ((b as int) * (pb - 1)) >= ((c as int) * (pa - 1)) * ((
        b as int) * (pb - 1))) by (nonlinear_arith)
            requires
                (a as int) * (pb - 1) >= (b as int) * (pa - 1),
                (b as int) * (pc - 1) >= (c as int) * (pb - 1),
                (b as int) * (pa - 1) >= 0,
                (c as int) * (pb - 1) >= 0,
                a >= 0,
                b >= 1,
                c >= 0,
                pa >= 10,
                pb >= 10,
                pc >= 10,
    ;
        assert((a as int) * (pc - 1) >= (c as int) * (pa - 1)) by (nonlinear_arith)
            requires
                ((a as int) * (pc - 1)) * ((b as int) * (pb - 1)) >= ((c as int) * (pa - 1)) * ((
                b as int) * (pb - 1)),
                (b as int) * (pb - 1) >= 9,
        ;
    }
    assert((a as int) * pc + c >= (c as int) * pa + a) by (nonlinear_arith)
        requires
            (a as int) * (pc - 1) >= (c as int) * (pa - 1),
    ;
}

/// Adjacent order in the concatenation order extends to every pair.
pub proof fn lemma_concat_sorted_pairs(s: Seq<u64>, i: int, j: int)
    requires
        forall|t: int| 0 <= t < s.len() - 1 ==> concat_ge(#[trigger] s[t], s[t + 1]),
        0 <= i < j < s.len(),
    ensures
        concat_ge(s[i], s[j]),
    decreases j - i,
{
    if i + 1 == j {
        assert(concat_ge(s[i], s[i + 1]));
    } else {
        lemma_concat_sorted_pairs(s, i + 1, j);
        assert(concat_ge(s[i], s[i + 1]));
        lemma_concat_ge_transitive(s[i], s[i + 1], s[j]);
    }
}

/// Reorders the digits so that every value stands before every later one
/// exactly when writing it first yields the larger concatenated number:
/// the order that spells the largest number from the given pieces. Values
/// whose two concatenations tie keep their mutual order reversed, as a
/// stable ascending sort read backwards would leave them.
pub fn max_number_from_digits(digits: &mut [u64])
    requires
        forall|t: int| 0 <= t < old(digits)@.len() ==> #[trigger] old(digits)@[t] <= 999_999_999,
    ensures
        final (digits)@.to_multiset() == old(digits)@.to_multiset(),
        final (digits)@.len() == old(digits)@.len(),
        forall|i: int, j: int|
            0 <= i < j < final (digits)@.len() ==> concat_ge(
                #[trigger] final (digits)@[i],
                #[trigger] final (digits)@[j],
            ),
{
    let len: usize = digits.len();
    if len == 0 {
        return ;
    }
    let mut i: usize = 1;
    while i < len
        invariant
            1 <= i <= len,
            len == digits@.len(),
            digits@.to_multiset() == old(digits)@.to_multiset(),
            forall|t: int| 0 <= t < len ==> #[trigger] digits@[t] <= 999_999_999,
            forall|t: int|
                0 <= t < i - 1 ==> concat_ge(#[trigger] digits@[t], digits@[t + 1]),
        decreases len - i,
    {
        let mut j: usize = i;
        while j > 0
            invariant
                0 <= j <= i < len,
                len == digits@.len(),
                digits@.to_multiset() == old(digits)@.to_multiset(),
                forall|t: int| 0 <= t < len ==> #[trigger] digits@[t] <= 999_999_999,
                forall|t: int|
                    0 <= t < j - 1 ==> concat_ge(#[trigger] digits@[t], digits@[t + 1]),
                forall|t: int|
                    j < t < i ==> concat_ge(#[trigger] digits@[t], digits@[t + 1]),
                forall|t: int| j < t <= i ==> concat_ge(digits@[j as int], #[trigger] digits@[t]),
                1 <= j < i ==> concat_ge(digits@[j - 1], digits@[j + 1]),
            ensures
                0 <= j <= i < len,
                len == digits@.len(),
                digits@.to_multiset() == old(digits)@.to_multiset(),
                forall|t: int| 0 <= t < len ==> #[trigger] digits@[t] <= 999_999_999,
                forall|t: int| 0 <= t < i ==> concat_ge(#[trigger] digits@[t], digits@[t + 1]),
            decreases j,
        {
            let upper: u64 = digits[j - 1];
            let lower: u64 = digits[j];
            // ties also move down, as a stable ascending sort read backwards
            if !concat_ge_exec(lower, upper) {
                break ;
            }
            let ghost before = digits@;
            digits.set(j - 1, lower);
            digits.set(j, upper);
            proof {
                assert(digits@ == before.update(j - 1, lower).update(j as int, upper));
                assert(before.update(j - 1, lower).to_multiset() == before.to_multiset().insert(
                    lower,
                ).remove(upper));
                assert(digits@.to_multiset() == before.update(j - 1, lower).to_multiset().insert(
                    upper,
                ).remove(lower));
                assert_multisets_equal!(digits@.to_multiset(), old(digits)@.to_multiset());
            }
            j = j - 1;
        }
        i = i + 1;
    }
    proof {
        assert forall|a: int, b: int| 0 <= a < b < digits@.len() implies concat_ge(
            #[trigger] digits@[a],
            #[trigger] digits@[b],
        ) by {
            lemma_concat_sorted_pairs(digits@, a, b);
        }
    }
}

/// Values drawn from the same multiset obey the same bounds.
proof fn lemma_multiset_bounds_transfer(s: Seq<i64>, t: Seq<i64>)
    requires
        s.to_multiset() == t.to_multiset(),
        forall|u: int| 0 <= u < t.len() ==> -0x10_0000 <= #[trigger] t[u] <= 0x10_0000,
    ensures
        forall|u: int| 0 <= u < s.len() ==> -0x10_0000 <= #[trigger] s[u] <= 0x10_0000,
{
    assert forall|u: int| 0 <= u < s.len() implies -0x10_0000 <= #[trigger] s[u]
        <= 0x10_0000 by {
        let x = s[u];
        assert(s.contains(x));
        assert(s.to_multiset().count(x) > 0);
        assert(t.to_multiset().count(x) > 0);
        assert(t.contains(x));
    }
}

} // verus!
