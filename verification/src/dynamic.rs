//! Dynamic-programming solvers: minimum coin exchange, the primitive
//! calculator, edit distance, longest common subsequences (pairwise and
//! triple), common-item filtering with a contiguous-run search, and
//! bounded-capacity value maximization.

use std::collections::HashSet;
use vstd::prelude::*;

verus! {

broadcast use vstd::std_specs::hash::group_hash_axioms;

/// The smaller of two naturals.
pub open spec fn min_nat(a: nat, b: nat) -> nat {
    if a <= b {
        a
    } else {
        b
    }
}

/// The smallest of three naturals.
pub open spec fn min3_nat(a: nat, b: nat, c: nat) -> nat {
    min_nat(a, min_nat(b, c))
}

/// The minimum, over the coins of `rest` that fit into value `i`, of one
/// plus the table value at `i` minus that coin; `None` when no coin fits.
/// `all` is the full denomination set the table is built from.
pub open spec fn coin_options(all: Seq<usize>, rest: Seq<usize>, i: int) -> Option<nat>
    decreases i, 0int, rest.len(),
{
    if i <= 0 || rest.len() == 0 {
        None
    } else {
        let c = rest.last() as int;
        let tail = coin_options(all, rest.drop_last(), i);
        if 0 < c <= i {
            let cand = (1 + coin_count(all, i - c)) as nat;
            match tail {
                None => Some(cand),
                Some(t) => Some(min_nat(t, cand)),
            }
        } else {
            tail
        }
    }
}

/// The coin-exchange table value for `i`: zero at zero, and one more than
/// the best reachable predecessor otherwise. Where no denomination fits,
/// the table deliberately records zero, so an unreachable value is
/// indistinguishable from one needing no coins; callers that care must
/// check reachability themselves.
pub open spec fn coin_count(all: Seq<usize>, i: int) -> nat
    decreases i, 1int, 0int,
{
    if i <= 0 {
        0
    } else {
        match coin_options(all, all, i) {
            None => 0,
            Some(v) => v,
        }
    }
}

/// Every table value is at most the value itself.
proof fn lemma_coin_count_le(all: Seq<usize>, i: int)
    ensures
        coin_count(all, i) <= (if i >= 0 {
            i
        } else {
            0
        }),
    decreases i, 1int, 0int,
{
    if i > 0 {
        lemma_coin_options_le(all, all, i);
    }
}

proof fn lemma_coin_options_le(all: Seq<usize>, rest: Seq<usize>, i: int)
    requires
        i > 0,
    ensures
        match coin_options(all, rest, i) {
            None => true,
            Some(v) => v <= i,
        },
    decreases i, 0int, rest.len(),
{
    if rest.len() > 0 {
        lemma_coin_options_le(all, rest.drop_last(), i);
        let c = rest.last() as int;
        if 0 < c <= i {
            lemma_coin_count_le(all, i - c);
        }
    }
}

/// Computes the minimum number of coins from `coins` summing exactly to
/// `value`, by the bottom-up table recurrence; an unreachable value yields
/// zero, exactly as `coin_count` specifies.
pub fn minimum_coins_exchange(value: usize, coins: &[usize]) -> (count: usize)
    requires
        value < usize::MAX,
        forall|k: int| 0 <= k < coins@.len() ==> coins@[k] > 0,
    ensures
        count == coin_count(coins@, value as int),
{
    let mut slots: Vec<usize> = Vec::new();
    slots.push(0);
    let mut i: usize = 1;
    while i <= value
        invariant
            value < usize::MAX,
            1 <= i <= value + 1,
            slots@.len() == i,
            forall|j: int| 0 <= j < i ==> slots@[j] == coin_count(coins@, j),
            forall|k: int| 0 <= k < coins@.len() ==> coins@[k] > 0,
        decreases value + 1 - i,
    {
        let mut best: usize = 0;
        let mut found: bool = false;
        let mut k: usize = 0;
        proof {
            assert(coins@.take(0) =~= Seq::<usize>::empty());
        }
        while k < coins.len()
            invariant
                k <= coins@.len(),
                1 <= i <= value,
                slots@.len() == i,
                forall|j: int| 0 <= j < i ==> slots@[j] == coin_count(coins@, j),
                forall|kk: int| 0 <= kk < coins@.len() ==> coins@[kk] > 0,
                match coin_options(coins@, coins@.take(k as int), i as int) {
                    None => !found,
                    Some(v) => found && best == v,
                },
                found ==> best <= i,
                !found ==> best == 0,
            decreases coins@.len() - k,
        {
            let c: usize = coins[k];
            proof {
                assert(coins@.take(k + 1).drop_last() =~= coins@.take(k as int));
                assert(coins@.take(k + 1).last() == coins@[k as int]);
            }
            if c <= i {
                proof {
                    lemma_coin_count_le(coins@, i - c);
                }
                let cand: usize = slots[i - c] + 1;
                if !found || cand < best {
                    best = cand;
                    found = true;
                }
            }
            k = k + 1;
        }
        proof {
            assert(coins@.take(coins@.len() as int) =~= coins@);
            if found {
                assert(coin_count(coins@, i as int) == best);
            } else {
                assert(coin_count(coins@, i as int) == 0);
            }
        }
        let ghost old_slots = slots@;
        slots.push(best);
        proof {
            assert forall|j: int| 0 <= j < i + 1 implies slots@[j] == coin_count(coins@, j) by {
                if j < i {
                    assert(slots@[j] == old_slots[j]);
                } else {
                    assert(slots@[j] == best);
                }
            }
        }
        i = i + 1;
    }
    slots[value]
}

/// With denomination 1 among the coins, raising the value by one raises
/// the minimum coin count by at most one.
pub proof fn lemma_coin_count_lipschitz(coins: Seq<usize>, i: int)
    requires
        coins.contains(1usize),
        i >= 0,
    ensures
        coin_count(coins, i + 1) <= coin_count(coins, i) + 1,
{
    lemma_coin_options_one(coins, coins, i + 1);
}

proof fn lemma_coin_options_one(all: Seq<usize>, rest: Seq<usize>, i: int)
    requires
        rest.contains(1usize),
        i >= 1,
    ensures
        match coin_options(all, rest, i) {
            None => false,
            Some(v) => v <= 1 + coin_count(all, i - 1),
        },
    decreases rest.len(),
{
    let c = rest.last() as int;
    if rest.last() == 1usize {
        assert(0 < c <= i);
    } else {
        let w = choose|w: int| 0 <= w < rest.len() && rest[w] == 1usize;
        assert(rest.drop_last()[w] == 1usize);
        assert(rest.drop_last().contains(1usize));
        lemma_coin_options_one(all, rest.drop_last(), i);
    }
}

/// For every coin set holding denomination 1, the value minus the minimum
/// coin count is monotonically non-decreasing in the value: the count can
/// never drop faster than the value does.
pub proof fn lemma_coin_count_value_monotonic(coins: Seq<usize>, v: int, w: int)
    requires
        coins.contains(1usize),
        0 <= v <= w,
    ensures
        coin_count(coins, w) + v <= coin_count(coins, v) + w,
    decreases w - v,
{
    if v < w {
        lemma_coin_count_value_monotonic(coins, v, w - 1);
        lemma_coin_count_lipschitz(coins, w - 1);
    }
}

/// The minimum number of single-character insertions, deletions and
/// substitutions turning `a` into `b`, by the Levenshtein recurrence.
pub open spec fn edit_dist(a: Seq<char>, b: Seq<char>) -> nat
    decreases a.len() + b.len(),
{
    if a.len() == 0 {
        b.len()
    } else if b.len() == 0 {
        a.len()
    } else if a.last() == b.last() {
        edit_dist(a.drop_last(), b.drop_last())
    } else {
        1 + min3_nat(
            edit_dist(a.drop_last(), b.drop_last()),
            edit_dist(a.drop_last(), b),
            edit_dist(a, b.drop_last()),
        )
    }
}

/// The edit distance never exceeds the two lengths' sum.
pub proof fn lemma_edit_dist_le(a: Seq<char>, b: Seq<char>)
    ensures
        edit_dist(a, b) <= a.len() + b.len(),
    decreases a.len() + b.len(),
{
    if a.len() > 0 && b.len() > 0 {
        lemma_edit_dist_le(a.drop_last(), b.drop_last());
        lemma_edit_dist_le(a.drop_last(), b);
        lemma_edit_dist_le(a, b.drop_last());
    }
}

/// Editing a sequence into itself needs no operations.
pub proof fn lemma_edit_dist_self(s: Seq<char>)
    ensures
        edit_dist(s, s) == 0,
    decreases s.len(),
{
    if s.len() > 0 {
        lemma_edit_dist_self(s.drop_last());
    }
}

/// The edit distance is symmetric in its two arguments.
pub proof fn lemma_edit_dist_symmetric(a: Seq<char>, b: Seq<char>)
    ensures
        edit_dist(a, b) == edit_dist(b, a),
    decreases a.len() + b.len(),
{
    if a.len() > 0 && b.len() > 0 {
        lemma_edit_dist_symmetric(a.drop_last(), b.drop_last());
        lemma_edit_dist_symmetric(a.drop_last(), b);
        lemma_edit_dist_symmetric(a, b.drop_last());
    }
}

/// Copies the characters of a string into a vector.
fn chars_of(s: &str) -> (out: Vec<char>)
    ensures
        out@ == s@,
{
    let len: usize = s.unicode_len();
    let mut out: Vec<char> = Vec::new();
    let mut i: usize = 0;
    proof {
        assert(out@ =~= s@.take(0));
    }
    while i < len
        invariant
            i <= len,
            len == s@.len(),
            out@ == s@.take(i as int),
        decreases len - i,
    {
        let c: char = s.get_char(i);
        out.push(c);
        proof {
            assert(s@.take(i as int).push(c) =~= s@.take(i + 1));
        }
        i = i + 1;
    }
    proof {
        assert(s@.take(len as int) =~= s@);
    }
    out
}

/// The smallest of three table values.
fn min3(a: usize, b: usize, c: usize) -> (m: usize)
    ensures
        m == min3_nat(a as nat, b as nat, c as nat),
{
    let bc: usize = if b <= c {
        b
    } else {
        c
    };
    if a <= bc {
        a
    } else {
        bc
    }
}

/// Computes the Levenshtein edit distance between two strings by filling
/// the full (n+1) x (m+1) table of prefix distances.
pub fn edit_distance(s1: &str, s2: &str) -> (dist: usize)
    requires
        s1@.len() + s2@.len() < usize::MAX,
    ensures
        dist == edit_dist(s1@, s2@),
{
    let a = chars_of(s1);
    let b = chars_of(s2);
    let n: usize = a.len();
    let m: usize = b.len();
    let mut d: Vec<Vec<usize>> = Vec::new();
    let mut i: usize = 0;
    while i <= n
        invariant
            i <= n + 1,
            n == a@.len(),
            m == b@.len(),
            a@ == s1@,
            b@ == s2@,
            n + m < usize::MAX,
            d@.len() == i,
            forall|p: int| 0 <= p < i ==> #[trigger] d@[p]@.len() == m + 1,
            forall|p: int, q: int|
                0 <= p < i && 0 <= q <= m ==> #[trigger] d@[p]@[q] == edit_dist(
                    s1@.take(p),
                    s2@.take(q),
                ),
        decreases n + 1 - i,
    {
        let mut row: Vec<usize> = Vec::new();
        if i == 0 {
            let mut j: usize = 0;
            while j <= m
                invariant
                    j <= m + 1,
                    m < usize::MAX,
                    m == b@.len(),
                    b@ == s2@,
                    row@.len() == j,
                    forall|q: int| 0 <= q < j ==> #[trigger] row@[q] == edit_dist(
                        s1@.take(0),
                        s2@.take(q),
                    ),
                decreases m + 1 - j,
            {
                row.push(j);
                proof {
                    assert(s1@.take(0) =~= Seq::<char>::empty());
                    lemma_edit_dist_empty_prefix(s2@, j as int);
                }
                j = j + 1;
            }
        } else {
            row.push(i);
            proof {
                assert(s2@.take(0) =~= Seq::<char>::empty());
                lemma_edit_dist_empty_prefix(s1@, i as int);
                lemma_edit_dist_symmetric(s1@.take(i as int), Seq::<char>::empty());
            }
            let mut j: usize = 1;
            while j <= m
                invariant
                    1 <= j <= m + 1,
                    1 <= i <= n,
                    n == a@.len(),
                    m == b@.len(),
                    a@ == s1@,
                    b@ == s2@,
                    n + m < usize::MAX,
                    d@.len() == i,
                    forall|p: int| 0 <= p < i ==> #[trigger] d@[p]@.len() == m + 1,
                    forall|p: int, q: int|
                        0 <= p < i && 0 <= q <= m ==> #[trigger] d@[p]@[q] == edit_dist(
                            s1@.take(p),
                            s2@.take(q),
                        ),
                    row@.len() == j,
                    forall|q: int| 0 <= q < j ==> #[trigger] row@[q] == edit_dist(
                        s1@.take(i as int),
                        s2@.take(q),
                    ),
                decreases m + 1 - j,
            {
                let prev_row = &d[i - 1];
                let up_left: usize = prev_row[j - 1];
                let up: usize = prev_row[j];
                let left: usize = row[j - 1];
                proof {
                    lemma_edit_dist_le(s1@.take(i as int), s2@.take(j as int));
                    lemma_edit_dist_step(s1@, s2@, i as int, j as int);
                }
                let cell: usize = if a[i - 1] == b[j - 1] {
                    up_left
                } else {
                    min3(up_left, up, left) + 1
                };
                row.push(cell);
                j = j + 1;
            }
        }
        d.push(row);
        i = i + 1;
    }
    proof {
        assert(s1@.take(n as int) =~= s1@);
        assert(s2@.take(m as int) =~= s2@);
    }
    d[n][m]
}

/// The larger of two naturals.
pub open spec fn max_nat(a: nat, b: nat) -> nat {
    if a >= b {
        a
    } else {
        b
    }
}

/// The largest of three naturals.
pub open spec fn max3_nat(a: nat, b: nat, c: nat) -> nat {
    max_nat(a, max_nat(b, c))
}

/// The length of the longest common subsequence of `a` and `b`, by the
/// classic two-dimensional recurrence.
pub open spec fn lcs(a: Seq<usize>, b: Seq<usize>) -> nat
    decreases a.len() + b.len(),
{
    if a.len() == 0 || b.len() == 0 {
        0
    } else if a.last() == b.last() {
        1 + lcs(a.drop_last(), b.drop_last())
    } else {
        max_nat(lcs(a.drop_last(), b), lcs(a, b.drop_last()))
    }
}

/// A common subsequence is never longer than either input.
pub proof fn lemma_lcs_le(a: Seq<usize>, b: Seq<usize>)
    ensures
        lcs(a, b) <= a.len(),
        lcs(a, b) <= b.len(),
    decreases a.len() + b.len(),
{
    if a.len() > 0 && b.len() > 0 {
        if a.last() == b.last() {
            lemma_lcs_le(a.drop_last(), b.drop_last());
        } else {
            lemma_lcs_le(a.drop_last(), b);
            lemma_lcs_le(a, b.drop_last());
        }
    }
}

/// `s` can be read out of `t` in order: each value of `s` either matches
/// the last value of `t` or is found further left.
pub open spec fn is_subsequence_of(s: Seq<usize>, t: Seq<usize>) -> bool
    decreases s.len() + t.len(),
{
    if s.len() == 0 {
        true
    } else if t.len() == 0 {
        false
    } else {
        (s.last() == t.last() && is_subsequence_of(s.drop_last(), t.drop_last()))
            || is_subsequence_of(s, t.drop_last())
    }
}

/// A subsequence of `t` is one of `t` extended by another value.
proof fn lemma_subseq_extend(s: Seq<usize>, t: Seq<usize>, x: usize)
    requires
        is_subsequence_of(s, t),
    ensures
        is_subsequence_of(s, t.push(x)),
{
    assert(t.push(x).drop_last() =~= t);
}

/// Dropping the last value of a subsequence keeps it a subsequence.
proof fn lemma_subseq_drop_s(s: Seq<usize>, t: Seq<usize>)
    requires
        is_subsequence_of(s, t),
        s.len() >= 1,
    ensures
        is_subsequence_of(s.drop_last(), t),
    decreases t.len(),
{
    if t.len() == 0 {
    } else if s.last() == t.last() && is_subsequence_of(s.drop_last(), t.drop_last()) {
        lemma_subseq_extend(s.drop_last(), t.drop_last(), t.last());
        assert(t.drop_last().push(t.last()) =~= t);
    } else {
        lemma_subseq_drop_s(s, t.drop_last());
        lemma_subseq_extend(s.drop_last(), t.drop_last(), t.last());
        assert(t.drop_last().push(t.last()) =~= t);
    }
}

/// No common subsequence is longer than the recurrence value.
pub proof fn lemma_lcs_upper(s: Seq<usize>, a: Seq<usize>, b: Seq<usize>)
    requires
        is_subsequence_of(s, a),
        is_subsequence_of(s, b),
    ensures
        s.len() <= lcs(a, b),
    decreases a.len() + b.len() + s.len(),
{
    if s.len() == 0 {
    } else if a.len() == 0 || b.len() == 0 {
        // a non-empty sequence is no subsequence of an empty one
    } else if a.last() == b.last() {
        let matched_b = s.last() == b.last() && is_subsequence_of(s.drop_last(), b.drop_last());
        if matched_b {
            if s.last() == a.last() && is_subsequence_of(s.drop_last(), a.drop_last()) {
            } else {
                assert(is_subsequence_of(s, a.drop_last()));
                lemma_subseq_drop_s(s, a.drop_last());
            }
            lemma_lcs_upper(s.drop_last(), a.drop_last(), b.drop_last());
        } else {
            assert(is_subsequence_of(s, b.drop_last()));
            if s.last() == a.last() && is_subsequence_of(s.drop_last(), a.drop_last()) {
                lemma_subseq_drop_s(s, b.drop_last());
                lemma_lcs_upper(s.drop_last(), a.drop_last(), b.drop_last());
            } else {
                assert(is_subsequence_of(s, a.drop_last()));
                lemma_lcs_upper(s, a.drop_last(), b.drop_last());
            }
        }
    } else {
        let matched_a = s.last() == a.last() && is_subsequence_of(s.drop_last(), a.drop_last());
        if !matched_a {
            assert(is_subsequence_of(s, a.drop_last()));
            lemma_lcs_upper(s, a.drop_last(), b);
        } else {
            assert(s.last() != b.last());
            assert(is_subsequence_of(s, b.drop_last()));
            lemma_lcs_upper(s, a, b.drop_last());
        }
    }
}

/// Some common subsequence reaches the recurrence value: together with
/// `lemma_lcs_upper`, the recurrence computes exactly the length of the
/// longest common subsequence.
pub proof fn lemma_lcs_achieved(a: Seq<usize>, b: Seq<usize>)
    ensures
        exists|s: Seq<usize>|
            #![trigger is_subsequence_of(s, a)]
            is_subsequence_of(s, a) && is_subsequence_of(s, b) && s.len() == lcs(a, b),
    decreases a.len() + b.len(),
{
    if a.len() == 0 || b.len() == 0 {
        let empty = Seq::<usize>::empty();
        assert(is_subsequence_of(empty, a) && is_subsequence_of(empty, b));
        assert(empty.len() == lcs(a, b));
    } else if a.last() == b.last() {
        lemma_lcs_achieved(a.drop_last(), b.drop_last());
        let prev = choose|s: Seq<usize>|
            #![trigger is_subsequence_of(s, a.drop_last())]
            is_subsequence_of(s, a.drop_last()) && is_subsequence_of(s, b.drop_last())
                && s.len() == lcs(a.drop_last(), b.drop_last());
        let grown = prev.push(a.last());
        assert(grown.drop_last() =~= prev);
        assert(is_subsequence_of(grown, a));
        assert(is_subsequence_of(grown, b));
        assert(grown.len() == lcs(a, b));
    } else if lcs(a.drop_last(), b) >= lcs(a, b.drop_last()) {
        lemma_lcs_achieved(a.drop_last(), b);
        let prev = choose|s: Seq<usize>|
            #![trigger is_subsequence_of(s, a.drop_last())]
            is_subsequence_of(s, a.drop_last()) && is_subsequence_of(s, b) && s.len() == lcs(
                a.drop_last(),
                b,
            );
        lemma_subseq_extend(prev, a.drop_last(), a.last());
        assert(a.drop_last().push(a.last()) =~= a);
        assert(is_subsequence_of(prev, a));
    } else {
        lemma_lcs_achieved(a, b.drop_last());
        let prev = choose|s: Seq<usize>|
            #![trigger is_subsequence_of(s, a)]
            is_subsequence_of(s, a) && is_subsequence_of(s, b.drop_last()) && s.len() == lcs(
                a,
                b.drop_last(),
            );
        lemma_subseq_extend(prev, b.drop_last(), b.last());
        assert(b.drop_last().push(b.last()) =~= b);
        assert(is_subsequence_of(prev, b));
    }
}

/// Unfolds the pairwise recurrence one step on non-empty prefixes.
proof fn lemma_lcs_step(a: Seq<usize>, b: Seq<usize>, i: int, j: int)
    requires
        1 <= i <= a.len(),
        1 <= j <= b.len(),
    ensures
        lcs(a.take(i), b.take(j)) == (if a[i - 1] == b[j - 1] {
            (1 + lcs(a.take(i - 1), b.take(j - 1))) as nat
        } else {
            max_nat(lcs(a.take(i - 1), b.take(j)), lcs(a.take(i), b.take(j - 1)))
        }),
{
    let ai = a.take(i);
    let bj = b.take(j);
    assert(ai.drop_last() =~= a.take(i - 1));
    assert(bj.drop_last() =~= b.take(j - 1));
    assert(ai.last() == a[i - 1]);
    assert(bj.last() == b[j - 1]);
}

/// Fills the (n+1) x (m+1) table of longest-common-subsequence lengths
/// over all pairs of prefixes of `s1` and `s2`.
fn longest_common_subsequences_matrix(s1: &[usize], s2: &[usize]) -> (d: Vec<Vec<usize>>)
    requires
        s1@.len() < usize::MAX,
        s2@.len() < usize::MAX,
    ensures
        d@.len() == s1@.len() + 1,
        forall|p: int| 0 <= p <= s1@.len() ==> #[trigger] d@[p]@.len() == s2@.len() + 1,
        forall|p: int, q: int|
            0 <= p <= s1@.len() && 0 <= q <= s2@.len() ==> #[trigger] d@[p]@[q] == lcs(
                s1@.take(p),
                s2@.take(q),
            ),
{
    let n: usize = s1.len();
    let m: usize = s2.len();
    let mut d: Vec<Vec<usize>> = Vec::new();
    let mut i: usize = 0;
    while i <= n
        invariant
            i <= n + 1,
            n == s1@.len(),
            m == s2@.len(),
            n < usize::MAX,
            m < usize::MAX,
            d@.len() == i,
            forall|p: int| 0 <= p < i ==> #[trigger] d@[p]@.len() == m + 1,
            forall|p: int, q: int|
                0 <= p < i && 0 <= q <= m ==> #[trigger] d@[p]@[q] == lcs(
                    s1@.take(p),
                    s2@.take(q),
                ),
        decreases n + 1 - i,
    {
        let mut row: Vec<usize> = Vec::new();
        row.push(0);
        proof {
            assert(s2@.take(0).len() == 0);
        }
        let mut j: usize = 1;
        while j <= m
            invariant
                1 <= j <= m + 1,
                i <= n,
                n == s1@.len(),
                m == s2@.len(),
                n < usize::MAX,
                m < usize::MAX,
                d@.len() == i,
                forall|p: int| 0 <= p < i ==> #[trigger] d@[p]@.len() == m + 1,
                forall|p: int, q: int|
                    0 <= p < i && 0 <= q <= m ==> #[trigger] d@[p]@[q] == lcs(
                        s1@.take(p),
                        s2@.take(q),
                    ),
                row@.len() == j,
                forall|q: int| 0 <= q < j ==> #[trigger] row@[q] == lcs(
                    s1@.take(i as int),
                    s2@.take(q),
                ),
            decreases m + 1 - j,
        {
            let cell: usize;
            if i == 0 {
                cell = 0;
                proof {
                    assert(s1@.take(0).len() == 0);
                }
            } else {
                proof {
                    lemma_lcs_step(s1@, s2@, i as int, j as int);
                    lemma_lcs_le(s1@.take(i as int), s2@.take(j as int));
                }
                let prev_row = &d[i - 1];
                if s1[i - 1] == s2[j - 1] {
                    cell = prev_row[j - 1] + 1;
                } else {
                    let up: usize = prev_row[j];
                    let left: usize = row[j - 1];
                    cell = if up >= left {
                        up
                    } else {
                        left
                    };
                }
            }
            row.push(cell);
            j = j + 1;
        }
        d.push(row);
        i = i + 1;
    }
    d
}

/// Computes the length of the longest common subsequence of two sequences.
pub fn dynamic_longest_common_subsequence(s1: &[usize], s2: &[usize]) -> (len: usize)
    requires
        s1@.len() < usize::MAX,
        s2@.len() < usize::MAX,
    ensures
        len == lcs(s1@, s2@),
{
    let d = longest_common_subsequences_matrix(s1, s2);
    proof {
        assert(s1@.take(s1@.len() as int) =~= s1@);
        assert(s2@.take(s2@.len() as int) =~= s2@);
    }
    d[s1.len()][s2.len()]
}

/// The length of the longest subsequence common to three sequences, by the
/// three-dimensional recurrence; a match requires all three last elements
/// to be equal.
pub open spec fn lcs3(a: Seq<usize>, b: Seq<usize>, c: Seq<usize>) -> nat
    decreases a.len() + b.len() + c.len(),
{
    if a.len() == 0 || b.len() == 0 || c.len() == 0 {
        0
    } else if a.last() == b.last() && b.last() == c.last() {
        1 + lcs3(a.drop_last(), b.drop_last(), c.drop_last())
    } else {
        max3_nat(
            lcs3(a.drop_last(), b, c),
            lcs3(a, b.drop_last(), c),
            lcs3(a, b, c.drop_last()),
        )
    }
}

/// A common subsequence of three sequences is never longer than any input.
pub proof fn lemma_lcs3_le(a: Seq<usize>, b: Seq<usize>, c: Seq<usize>)
    ensures
        lcs3(a, b, c) <= a.len(),
        lcs3(a, b, c) <= b.len(),
        lcs3(a, b, c) <= c.len(),
    decreases a.len() + b.len() + c.len(),
{
    if a.len() > 0 && b.len() > 0 && c.len() > 0 {
        if a.last() == b.last() && b.last() == c.last() {
            lemma_lcs3_le(a.drop_last(), b.drop_last(), c.drop_last());
        } else {
            lemma_lcs3_le(a.drop_last(), b, c);
            lemma_lcs3_le(a, b.drop_last(), c);
            lemma_lcs3_le(a, b, c.drop_last());
        }
    }
}

/// No subsequence common to all three inputs is longer than the triple
/// recurrence value.
pub proof fn lemma_lcs3_upper(s: Seq<usize>, a: Seq<usize>, b: Seq<usize>, c: Seq<usize>)
    requires
        is_subsequence_of(s, a),
        is_subsequence_of(s, b),
        is_subsequence_of(s, c),
    ensures
        s.len() <= lcs3(a, b, c),
    decreases a.len() + b.len() + c.len() + s.len(),
{
    if s.len() == 0 {
    } else if a.len() == 0 || b.len() == 0 || c.len() == 0 {
        // a non-empty sequence is no subsequence of an empty one
    } else {
        let matched_a = s.last() == a.last() && is_subsequence_of(s.drop_last(), a.drop_last());
        let matched_b = s.last() == b.last() && is_subsequence_of(s.drop_last(), b.drop_last());
        let matched_c = s.last() == c.last() && is_subsequence_of(s.drop_last(), c.drop_last());
        if a.last() == b.last() && b.last() == c.last() {
            if matched_a || matched_b || matched_c {
                if !matched_a {
                    assert(is_subsequence_of(s, a.drop_last()));
                    lemma_subseq_drop_s(s, a.drop_last());
                }
                if !matched_b {
                    assert(is_subsequence_of(s, b.drop_last()));
                    lemma_subseq_drop_s(s, b.drop_last());
                }
                if !matched_c {
                    assert(is_subsequence_of(s, c.drop_last()));
                    lemma_subseq_drop_s(s, c.drop_last());
                }
                lemma_lcs3_upper(s.drop_last(), a.drop_last(), b.drop_last(), c.drop_last());
            } else {
                assert(is_subsequence_of(s, a.drop_last()));
                assert(is_subsequence_of(s, b.drop_last()));
                assert(is_subsequence_of(s, c.drop_last()));
                lemma_lcs3_upper(s, a.drop_last(), b.drop_last(), c.drop_last());
            }
        } else {
            if !matched_a {
                assert(is_subsequence_of(s, a.drop_last()));
                lemma_lcs3_upper(s, a.drop_last(), b, c);
            } else if !matched_b {
                assert(is_subsequence_of(s, b.drop_last()));
                lemma_lcs3_upper(s, a, b.drop_last(), c);
            } else {
                assert(s.last() == a.last() && s.last() == b.last());
                assert(!matched_c);
                assert(is_subsequence_of(s, c.drop_last()));
                lemma_lcs3_upper(s, a, b, c.drop_last());
            }
        }
    }
}

/// Some subsequence common to all three inputs reaches the triple
/// recurrence value: together with `lemma_lcs3_upper`, the recurrence
/// computes exactly the longest common subsequence length of the three.
pub proof fn lemma_lcs3_achieved(a: Seq<usize>, b: Seq<usize>, c: Seq<usize>)
    ensures
        exists|s: Seq<usize>|
            #![trigger is_subsequence_of(s, a)]
            is_subsequence_of(s, a) && is_subsequence_of(s, b) && is_subsequence_of(s, c)
                && s.len() == lcs3(a, b, c),
    decreases a.len() + b.len() + c.len(),
{
    if a.len() == 0 || b.len() == 0 || c.len() == 0 {
        let empty = Seq::<usize>::empty();
        assert(is_subsequence_of(empty, a) && is_subsequence_of(empty, b) && is_subsequence_of(
            empty,
            c,
        ));
        assert(empty.len() == lcs3(a, b, c));
    } else if a.last() == b.last() && b.last() == c.last() {
        lemma_lcs3_achieved(a.drop_last(), b.drop_last(), c.drop_last());
        let prev = choose|s: Seq<usize>|
            #![trigger is_subsequence_of(s, a.drop_last())]
            is_subsequence_of(s, a.drop_last()) && is_subsequence_of(s, b.drop_last())
                && is_subsequence_of(s, c.drop_last()) && s.len() == lcs3(
                a.drop_last(),
                b.drop_last(),
                c.drop_last(),
            );
        let grown = prev.push(a.last());
        assert(grown.drop_last() =~= prev);
        assert(is_subsequence_of(grown, a));
        assert(is_subsequence_of(grown, b));
        assert(is_subsequence_of(grown, c));
        assert(grown.len() == lcs3(a, b, c));
    } else if lcs3(a.drop_last(), b, c) >= lcs3(a, b.drop_last(), c) && lcs3(
        a.drop_last(),
        b,
        c,
    ) >= lcs3(a, b, c.drop_last()) {
        lemma_lcs3_achieved(a.drop_last(), b, c);
        let prev = choose|s: Seq<usize>|
            #![trigger is_subsequence_of(s, a.drop_last())]
            is_subsequence_of(s, a.drop_last()) && is_subsequence_of(s, b) && is_subsequence_of(
                s,
                c,
            ) && s.len() == lcs3(a.drop_last(), b, c);
        lemma_subseq_extend(prev, a.drop_last(), a.last());
        assert(a.drop_last().push(a.last()) =~= a);
        assert(is_subsequence_of(prev, a));
    } else if lcs3(a, b.drop_last(), c) >= lcs3(a, b, c.drop_last()) {
        lemma_lcs3_achieved(a, b.drop_last(), c);
        let prev = choose|s: Seq<usize>|
            #![trigger is_subsequence_of(s, a)]
            is_subsequence_of(s, a) && is_subsequence_of(s, b.drop_last()) && is_subsequence_of(
                s,
                c,
            ) && s.len() == lcs3(a, b.drop_last(), c);
        lemma_subseq_extend(prev, b.drop_last(), b.last());
        assert(b.drop_last().push(b.last()) =~= b);
        assert(is_subsequence_of(prev, b));
    } else {
        lemma_lcs3_achieved(a, b, c.drop_last());
        let prev = choose|s: Seq<usize>|
            #![trigger is_subsequence_of(s, a)]
            is_subsequence_of(s, a) && is_subsequence_of(s, b) && is_subsequence_of(
                s,
                c.drop_last(),
            ) && s.len() == lcs3(a, b, c.drop_last());
        lemma_subseq_extend(prev, c.drop_last(), c.last());
        assert(c.drop_last().push(c.last()) =~= c);
        assert(is_subsequence_of(prev, c));
    }
}

/// Unfolds the triple recurrence one step on non-empty prefixes.
proof fn lemma_lcs3_step(a: Seq<usize>, b: Seq<usize>, c: Seq<usize>, i: int, j: int, k: int)
    requires
        1 <= i <= a.len(),
        1 <= j <= b.len(),
        1 <= k <= c.len(),
    ensures
        lcs3(a.take(i), b.take(j), c.take(k)) == (if a[i - 1] == b[j - 1] && b[j - 1] == c[k
            - 1] {
            (1 + lcs3(a.take(i - 1), b.take(j - 1), c.take(k - 1))) as nat
        } else {
            max3_nat(
                lcs3(a.take(i - 1), b.take(j), c.take(k)),
                lcs3(a.take(i), b.take(j - 1), c.take(k)),
                lcs3(a.take(i), b.take(j), c.take(k - 1)),
            )
        }),
{
    let ai = a.take(i);
    let bj = b.take(j);
    let ck = c.take(k);
    assert(ai.drop_last() =~= a.take(i - 1));
    assert(bj.drop_last() =~= b.take(j - 1));
    assert(ck.drop_last() =~= c.take(k - 1));
    assert(ai.last() == a[i - 1]);
    assert(bj.last() == b[j - 1]);
    assert(ck.last() == c[k - 1]);
}

/// Computes the length of the longest subsequence common to three
/// sequences; zero as soon as any input is empty.
pub fn dynamic_longest_common_subsequence_3(s1: &[usize], s2: &[usize], s3: &[usize]) -> (len:
    usize)
    requires
        s1@.len() < usize::MAX,
        s2@.len() < usize::MAX,
        s3@.len() < usize::MAX,
    ensures
        len == lcs3(s1@, s2@, s3@),
{
    let m: usize = s1.len();
    let n: usize = s2.len();
    let o: usize = s3.len();
    if m == 0 || n == 0 || o == 0 {
        return 0;
    }
    let mut d: Vec<Vec<Vec<usize>>> = Vec::new();
    let mut i: usize = 0;
    while i <= m
        invariant
            i <= m + 1,
            m == s1@.len(),
            n == s2@.len(),
            o == s3@.len(),
            m < usize::MAX,
            n < usize::MAX,
            o < usize::MAX,
            d@.len() == i,
            forall|p: int| 0 <= p < i ==> #[trigger] d@[p]@.len() == n + 1,
            forall|p: int, q: int|
                0 <= p < i && 0 <= q <= n ==> #[trigger] d@[p]@[q]@.len() == o + 1,
            forall|p: int, q: int, r: int|
                0 <= p < i && 0 <= q <= n && 0 <= r <= o ==> #[trigger] d@[p]@[q]@[r] == lcs3(
                    s1@.take(p),
                    s2@.take(q),
                    s3@.take(r),
                ),
        decreases m + 1 - i,
    {
        let mut plane: Vec<Vec<usize>> = Vec::new();
        let mut j: usize = 0;
        while j <= n
            invariant
                j <= n + 1,
                i <= m,
                m == s1@.len(),
                n == s2@.len(),
                o == s3@.len(),
                m < usize::MAX,
                n < usize::MAX,
                o < usize::MAX,
                d@.len() == i,
                forall|p: int| 0 <= p < i ==> #[trigger] d@[p]@.len() == n + 1,
                forall|p: int, q: int|
                    0 <= p < i && 0 <= q <= n ==> #[trigger] d@[p]@[q]@.len() == o + 1,
                forall|p: int, q: int, r: int|
                    0 <= p < i && 0 <= q <= n && 0 <= r <= o ==> #[trigger] d@[p]@[q]@[r] == lcs3(
                        s1@.take(p),
                        s2@.take(q),
                        s3@.take(r),
                    ),
                plane@.len() == j,
                forall|q: int| 0 <= q < j ==> #[trigger] plane@[q]@.len() == o + 1,
                forall|q: int, r: int|
                    0 <= q < j && 0 <= r <= o ==> #[trigger] plane@[q]@[r] == lcs3(
                        s1@.take(i as int),
                        s2@.take(q),
                        s3@.take(r),
                    ),
            decreases n + 1 - j,
        {
            let mut line: Vec<usize> = Vec::new();
            let mut k: usize = 0;
            while k <= o
                invariant
                    k <= o + 1,
                    j <= n,
                    i <= m,
                    m == s1@.len(),
                    n == s2@.len(),
                    o == s3@.len(),
                    m < usize::MAX,
                    n < usize::MAX,
                    o < usize::MAX,
                    d@.len() == i,
                    forall|p: int| 0 <= p < i ==> #[trigger] d@[p]@.len() == n + 1,
                    forall|p: int, q: int|
                        0 <= p < i && 0 <= q <= n ==> #[trigger] d@[p]@[q]@.len() == o + 1,
                    forall|p: int, q: int, r: int|
                        0 <= p < i && 0 <= q <= n && 0 <= r <= o ==> #[trigger] d@[p]@[q]@[r]
                            == lcs3(s1@.take(p), s2@.take(q), s3@.take(r)),
                    plane@.len() == j,
                    forall|q: int| 0 <= q < j ==> #[trigger] plane@[q]@.len() == o + 1,
                    forall|q: int, r: int|
                        0 <= q < j && 0 <= r <= o ==> #[trigger] plane@[q]@[r] == lcs3(
                            s1@.take(i as int),
                            s2@.take(q),
                            s3@.take(r),
                        ),
                    line@.len() == k,
                    forall|r: int| 0 <= r < k ==> #[trigger] line@[r] == lcs3(
                        s1@.take(i as int),
                        s2@.take(j as int),
                        s3@.take(r),
                    ),
                decreases o + 1 - k,
            {
                let cell: usize;
                if i == 0 || j == 0 || k == 0 {
                    cell = 0;
                    proof {
                        if i == 0 {
                            assert(s1@.take(0).len() == 0);
                        }
                        if j == 0 {
                            assert(s2@.take(0).len() == 0);
                        }
                        if k == 0 {
                            assert(s3@.take(0).len() == 0);
                        }
                    }
                } else {
                    proof {
                        lemma_lcs3_step(s1@, s2@, s3@, i as int, j as int, k as int);
                        lemma_lcs3_le(s1@.take(i as int), s2@.take(j as int), s3@.take(k as int));
                    }
                    if s1[i - 1] == s2[j - 1] && s2[j - 1] == s3[k - 1] {
                        cell = d[i - 1][j - 1][k - 1] + 1;
                    } else {
                        let remove_i: usize = d[i - 1][j][k];
                        let remove_j: usize = plane[j - 1][k];
                        let remove_k: usize = line[k - 1];
                        let mx: usize = if remove_i >= remove_j {
                            remove_i
                        } else {
                            remove_j
                        };
                        cell = if mx >= remove_k {
                            mx
                        } else {
                            remove_k
                        };
                    }
                }
                line.push(cell);
                k = k + 1;
            }
            plane.push(line);
            j = j + 1;
        }
        d.push(plane);
        i = i + 1;
    }
    proof {
        assert(s1@.take(m as int) =~= s1@);
        assert(s2@.take(n as int) =~= s2@);
        assert(s3@.take(o as int) =~= s3@);
    }
    d[m][n][o]
}

/// One step of the primitive calculator: add one, double, or triple.
pub open spec fn valid_step(x: int, y: int) -> bool {
    y == x + 1 || y == 2 * x || y == 3 * x
}

/// A well-formed operation path: it starts at one, ends at `target`, and
/// every step adds one, doubles, or triples.
pub open spec fn is_op_path(p: Seq<usize>, target: int) -> bool {
    &&& p.len() >= 1
    &&& p[0] == 1
    &&& p.last() == target
    &&& forall|t: int| #![trigger p[t]] 0 <= t < p.len() - 1 ==> valid_step(p[t] as int, p[t + 1] as int)
}

/// The fewest operations needed to reach `i` from one, by the forward
/// recurrence over the three step kinds.
pub open spec fn min_steps(i: int) -> nat
    decreases i,
{
    if i <= 1 {
        0
    } else {
        let by_one = (min_steps(i - 1) + 1) as nat;
        let by_two = if i % 2 == 0 {
            min_nat(by_one, (min_steps(i / 2) + 1) as nat)
        } else {
            by_one
        };
        if i % 3 == 0 {
            min_nat(by_two, (min_steps(i / 3) + 1) as nat)
        } else {
            by_two
        }
    }
}

/// No valid operation path to `target` is shorter than the recurrence
/// says: every path has at least `min_steps(target) + 1` entries.
pub proof fn lemma_min_steps_optimal(p: Seq<usize>, target: int)
    requires
        is_op_path(p, target),
    ensures
        p.len() >= min_steps(target) + 1,
    decreases p.len(),
{
    if p.len() == 1 {
        assert(target == 1);
    } else {
        let x = p[p.len() - 2] as int;
        let prefix = p.drop_last();
        assert(prefix.last() == p[p.len() - 2]);
        assert(forall|t: int| #![trigger prefix[t]]
            0 <= t < prefix.len() - 1 ==> valid_step(prefix[t] as int, prefix[t + 1] as int));
        assert(is_op_path(prefix, x));
        lemma_min_steps_optimal(prefix, x);
        assert(valid_step(x, target));
        if target <= 1 {
            // the path may wander, but min_steps(target) is zero here
            assert(min_steps(target) == 0);
        } else {
            lemma_min_steps_succ(x, target);
        }
    }
}

/// Whenever `target` follows `x` by one operation, the recurrence value at
/// `target` is at most one more than at `x`.
proof fn lemma_min_steps_succ(x: int, target: int)
    requires
        valid_step(x, target),
        target >= 2,
    ensures
        min_steps(target) <= min_steps(x) + 1,
{
    let by_one = (min_steps(target - 1) + 1) as nat;
    let by_two = if target % 2 == 0 {
        min_nat(by_one, (min_steps(target / 2) + 1) as nat)
    } else {
        by_one
    };
    if target == x + 1 {
        assert(min_steps(target) <= by_one);
    } else if target == 2 * x {
        assert(target % 2 == 0 && target / 2 == x);
        assert(min_steps(target) <= by_two);
    } else {
        assert(target == 3 * x);
        assert(target % 3 == 0 && target / 3 == x);
    }
}

/// Returns a vector holding the values of `v` in reverse order.
fn reversed(v: &Vec<usize>) -> (out: Vec<usize>)
    ensures
        out@ == v@.reverse(),
{
    let mut out: Vec<usize> = Vec::new();
    let mut i: usize = v.len();
    while i > 0
        invariant
            i <= v@.len(),
            out@.len() == v@.len() - i,
            forall|t: int| 0 <= t < out@.len() ==> out@[t] == v@[v@.len() - 1 - t],
        decreases i,
    {
        i = i - 1;
        out.push(v[i]);
    }
    proof {
        assert(out@ =~= v@.reverse());
    }
    out
}

/// Computes a shortest sequence of values from one to `value`, each step
/// adding one, doubling, or tripling; the result is a valid operation path
/// of exactly the minimum length.
pub fn primitive_calculator(value: usize) -> (path: Vec<usize>)
    requires
        1 <= value < usize::MAX,
    ensures
        is_op_path(path@, value as int),
        path@.len() == min_steps(value as int) + 1,
{
    let mut steps: Vec<usize> = Vec::new();
    let mut predecessor: Vec<usize> = Vec::new();
    steps.push(0);
    steps.push(0);
    predecessor.push(0);
    predecessor.push(0);
    let mut i: usize = 2;
    while i <= value
        invariant
            2 <= i <= value + 1,
            value < usize::MAX,
            steps@.len() == i,
            predecessor@.len() == i,
            forall|j: int| 0 <= j < i ==> #[trigger] steps@[j] == min_steps(j),
            forall|j: int| 0 <= j < i ==> #[trigger] steps@[j] <= j,
            forall|j: int| 2 <= j < i ==> 1 <= #[trigger] predecessor@[j] < j,
            forall|j: int|
                2 <= j < i ==> valid_step(#[trigger] predecessor@[j] as int, j),
            forall|j: int|
                2 <= j < i ==> min_steps(#[trigger] predecessor@[j] as int) + 1 == min_steps(j),
            predecessor@[1] == 0,
        decreases value + 1 - i,
    {
        let mut best: usize = steps[i - 1] + 1;
        let mut pred: usize = i - 1;
        if i % 2 == 0 {
            let half: usize = i / 2;
            if steps[half] < best {
                best = steps[half] + 1;
                pred = half;
            }
        }
        if i % 3 == 0 {
            let third: usize = i / 3;
            if steps[third] < best {
                best = steps[third] + 1;
                pred = third;
            }
        }
        proof {
            assert(min_steps(i as int) == best);
            assert(min_steps(pred as int) + 1 == min_steps(i as int));
        }
        steps.push(best);
        predecessor.push(pred);
        i = i + 1;
    }
    let mut trail: Vec<usize> = Vec::new();
    let mut cur: usize = value;
    while cur != 0
        invariant
            cur <= value,
            1 <= value,
            steps@.len() == value + 1,
            predecessor@.len() == value + 1,
            forall|j: int| 2 <= j < value + 1 ==> 1 <= #[trigger] predecessor@[j] < j,
            forall|j: int|
                2 <= j < value + 1 ==> valid_step(#[trigger] predecessor@[j] as int, j),
            forall|j: int|
                2 <= j < value + 1 ==> min_steps(#[trigger] predecessor@[j] as int) + 1
                    == min_steps(j),
            predecessor@[1] == 0,
            trail@.len() == 0 ==> cur == value,
            trail@.len() >= 1 ==> trail@[0] == value,
            cur != 0 ==> min_steps(value as int) == min_steps(cur as int) + trail@.len(),
            cur == 0 ==> trail@.len() == min_steps(value as int) + 1,
            cur == 0 ==> trail@.len() >= 1 && trail@.last() == 1,
            forall|t: int|
                #![trigger trail@[t]]
                0 <= t < trail@.len() - 1 ==> valid_step(trail@[t + 1] as int, trail@[t] as int),
            cur != 0 && trail@.len() >= 1 ==> valid_step(cur as int, trail@.last() as int),
        decreases cur,
    {
        trail.push(cur);
        cur = predecessor[cur];
    }
    let path = reversed(&trail);
    proof {
        let p = path@;
        let r = trail@;
        assert(p.len() == r.len());
        assert(p[0] == r[r.len() - 1]);
        assert(p.last() == r[0]);
        assert forall|t: int| #![trigger p[t]] 0 <= t < p.len() - 1 implies valid_step(
            p[t] as int,
            p[t + 1] as int,
        ) by {
            assert(p[t] == r[r.len() - 1 - t]);
            assert(p[t + 1] == r[r.len() - 2 - t]);
            assert(valid_step(r[(r.len() - 2 - t) + 1] as int, r[r.len() - 2 - t] as int));
        }
    }
    path
}

/// The best total obtainable from the first `n` items under capacity `w`,
/// by the standard 0/1 knapsack recurrence: each item may be taken at most
/// once, and an item's weight equals its value.
pub open spec fn knap_best(values: Seq<usize>, n: int, w: int) -> nat
    decreases n,
{
    if n <= 0 {
        0
    } else {
        let skip = knap_best(values, n - 1, w);
        let v = values[n - 1] as int;
        if 0 < v <= w {
            max_nat(skip, (v + knap_best(values, n - 1, w - v)) as nat)
        } else {
            skip
        }
    }
}

/// The best total never exceeds the capacity.
proof fn lemma_knap_best_le(values: Seq<usize>, n: int, w: int)
    requires
        w >= 0,
    ensures
        knap_best(values, n, w) <= w,
    decreases n,
{
    if n > 0 {
        lemma_knap_best_le(values, n - 1, w);
        let v = values[n - 1] as int;
        if 0 < v <= w {
            lemma_knap_best_le(values, n - 1, w - v);
        }
    }
}

/// The total of the items selected by `sel` among the first `n`.
pub open spec fn chosen_sum(values: Seq<usize>, sel: Seq<bool>, n: int) -> nat
    decreases n,
{
    if n <= 0 {
        0
    } else {
        chosen_sum(values, sel, n - 1) + (if sel[n - 1] {
            values[n - 1] as nat
        } else {
            0nat
        })
    }
}

/// The chosen total only reads the first `n` selection flags.
proof fn lemma_chosen_sum_congruent(values: Seq<usize>, s1: Seq<bool>, s2: Seq<bool>, n: int)
    requires
        forall|i: int| 0 <= i < n ==> s1[i] == s2[i],
    ensures
        chosen_sum(values, s1, n) == chosen_sum(values, s2, n),
    decreases n,
{
    if n > 0 {
        lemma_chosen_sum_congruent(values, s1, s2, n - 1);
    }
}

/// No selection of the first `n` items fitting the capacity beats the
/// recurrence value: the table is an upper bound for every brute-force
/// enumeration of subsets.
pub proof fn lemma_knap_best_optimal(values: Seq<usize>, sel: Seq<bool>, n: int, w: int)
    requires
        0 <= n,
        chosen_sum(values, sel, n) <= w,
    ensures
        chosen_sum(values, sel, n) <= knap_best(values, n, w),
    decreases n,
{
    if n > 0 {
        let v = values[n - 1] as int;
        if sel[n - 1] && v > 0 {
            lemma_knap_best_optimal(values, sel, n - 1, w - v);
        } else {
            lemma_knap_best_optimal(values, sel, n - 1, w);
            if 0 < v <= w {
                // the skip branch is still a lower bound for the maximum
                assert(knap_best(values, n, w) >= knap_best(values, n - 1, w));
            }
        }
    }
}

/// Some selection of the first `n` items achieves the recurrence value
/// within the capacity: the table value is attained by a real subset.
pub proof fn lemma_knap_best_achievable(values: Seq<usize>, n: int, w: int)
    requires
        0 <= n <= values.len(),
        w >= 0,
    ensures
        exists|sel: Seq<bool>|
            #![trigger chosen_sum(values, sel, n)]
            sel.len() == values.len() && chosen_sum(values, sel, n) == knap_best(values, n, w),
    decreases n,
{
    if n == 0 {
        let sel = Seq::<bool>::new(values.len(), |i: int| false);
        assert(chosen_sum(values, sel, 0) == knap_best(values, 0, w));
    } else {
        let v = values[n - 1] as int;
        let skip = knap_best(values, n - 1, w);
        if 0 < v <= w && v + knap_best(values, n - 1, w - v) > skip {
            lemma_knap_best_achievable(values, n - 1, w - v);
            let prev = choose|sel: Seq<bool>|
                #![trigger chosen_sum(values, sel, n - 1)]
                sel.len() == values.len() && chosen_sum(values, sel, n - 1) == knap_best(
                    values,
                    n - 1,
                    w - v,
                );
            let sel = prev.update(n - 1, true);
            lemma_chosen_sum_congruent(values, prev, sel, n - 1);
            assert(chosen_sum(values, sel, n) == knap_best(values, n, w));
        } else {
            lemma_knap_best_achievable(values, n - 1, w);
            let prev = choose|sel: Seq<bool>|
                #![trigger chosen_sum(values, sel, n - 1)]
                sel.len() == values.len() && chosen_sum(values, sel, n - 1) == knap_best(
                    values,
                    n - 1,
                    w,
                );
            let sel = prev.update(n - 1, false);
            lemma_chosen_sum_congruent(values, prev, sel, n - 1);
            assert(chosen_sum(values, sel, n) == knap_best(values, n, w));
        }
    }
}

/// Computes the maximum total value of items chosen at most once each whose
/// weights sum to at most `weight`, where an item's weight is its value.
pub fn maximum_sum_in_capacity(weight: usize, values: &[usize]) -> (best: usize)
    requires
        weight < usize::MAX,
        values@.len() < usize::MAX,
    ensures
        best == knap_best(values@, values@.len() as int, weight as int),
{
    let len: usize = values.len();
    let mut m: Vec<Vec<usize>> = Vec::new();
    let mut w: usize = 0;
    while w <= weight
        invariant
            w <= weight + 1,
            weight < usize::MAX,
            len == values@.len(),
            len < usize::MAX,
            m@.len() == w,
            forall|p: int| 0 <= p < w ==> #[trigger] m@[p]@.len() == len + 1,
            forall|p: int, q: int|
                0 <= p < w && 0 <= q <= len ==> #[trigger] m@[p]@[q] == knap_best(values@, q, p),
        decreases weight + 1 - w,
    {
        let mut row: Vec<usize> = Vec::new();
        row.push(0);
        let mut item: usize = 1;
        while item <= len
            invariant
                1 <= item <= len + 1,
                w <= weight,
                weight < usize::MAX,
                len == values@.len(),
                len < usize::MAX,
                m@.len() == w,
                forall|p: int| 0 <= p < w ==> #[trigger] m@[p]@.len() == len + 1,
                forall|p: int, q: int|
                    0 <= p < w && 0 <= q <= len ==> #[trigger] m@[p]@[q] == knap_best(
                        values@,
                        q,
                        p,
                    ),
                row@.len() == item,
                forall|q: int| 0 <= q < item ==> #[trigger] row@[q] == knap_best(
                    values@,
                    q,
                    w as int,
                ),
            decreases len + 1 - item,
        {
            let v: usize = values[item - 1];
            let skip: usize = row[item - 1];
            proof {
                lemma_knap_best_le(values@, item - 1, w as int);
                if 0 < v <= w {
                    lemma_knap_best_le(values@, item - 1, w - v);
                }
            }
            let cell: usize = if 0 < v && v <= w {
                let take: usize = m[w - v][item - 1] + v;
                if take >= skip {
                    take
                } else {
                    skip
                }
            } else {
                skip
            };
            row.push(cell);
            item = item + 1;
        }
        m.push(row);
        w = w + 1;
    }
    m[weight][len]
}

/// The views of a family of sequences.
pub open spec fn views_of(sequences: Seq<&[usize]>) -> Seq<Seq<usize>> {
    Seq::new(sequences.len(), |i: int| sequences[i]@)
}

/// Whether `v` occurs in every member of the family.
pub open spec fn in_all(family: Seq<Seq<usize>>, v: usize) -> bool {
    forall|k: int| 0 <= k < family.len() ==> (#[trigger] family[k]).contains(v)
}

/// Each member of the family, filtered to the values occurring in all of
/// them, order preserved.
pub open spec fn filtered_family(family: Seq<Seq<usize>>) -> Seq<Seq<usize>> {
    Seq::new(family.len(), |i: int| family[i].filter(|x: usize| in_all(family, x)))
}

/// Whether the run `w` occurs contiguously in `s`.
pub open spec fn seq_has_window(s: Seq<usize>, w: Seq<usize>) -> bool {
    exists|p: int| 0 <= p <= s.len() - w.len() && #[trigger] s.subrange(p, p + w.len()) == w
}

/// Whether the run `w` occurs contiguously in every member of the family.
pub open spec fn all_have_window(family: Seq<Seq<usize>>, w: Seq<usize>) -> bool {
    forall|i: int| 0 <= i < family.len() ==> seq_has_window(#[trigger] family[i], w)
}

/// Whether some run of length `k` is shared by every member of the family.
pub open spec fn has_common_window(family: Seq<Seq<usize>>, k: int) -> bool {
    exists|w: Seq<usize>| w.len() == k && all_have_window(family, w)
}

/// The length of the shortest member of the family.
pub open spec fn min_len_of(family: Seq<Seq<usize>>) -> nat
    decreases family.len(),
{
    if family.len() == 0 {
        0
    } else if family.len() == 1 {
        family[0].len()
    } else {
        min_nat(min_len_of(family.drop_last()), family.last().len())
    }
}

/// The shortest member's length bounds every member's length.
proof fn lemma_min_len_le(family: Seq<Seq<usize>>, i: int)
    requires
        0 <= i < family.len(),
    ensures
        min_len_of(family) <= family[i].len(),
    decreases family.len(),
{
    if family.len() > 1 && i < family.len() - 1 {
        lemma_min_len_le(family.drop_last(), i);
    }
}

/// True when `v` occurs in `s`.
fn slice_contains(s: &[usize], v: usize) -> (r: bool)
    ensures
        r == s@.contains(v),
{
    let mut t: usize = 0;
    while t < s.len()
        invariant
            t <= s@.len(),
            forall|u: int| 0 <= u < t ==> s@[u] != v,
        decreases s@.len() - t,
    {
        if s[t] == v {
            return true;
        }
        t = t + 1;
    }
    false
}

/// True when `v` occurs in every sequence of the slice.
fn in_all_exec(sequences: &[&[usize]], v: usize) -> (r: bool)
    ensures
        r == in_all(views_of(sequences@), v),
{
    let mut k: usize = 0;
    while k < sequences.len()
        invariant
            k <= sequences@.len(),
            forall|j: int|
                0 <= j < k ==> (#[trigger] views_of(sequences@)[j]).contains(v),
        decreases sequences@.len() - k,
    {
        let present: bool = slice_contains(sequences[k], v);
        if !present {
            proof {
                assert(!views_of(sequences@)[k as int].contains(v));
            }
            return false;
        }
        k = k + 1;
    }
    true
}

/// Collects the set of values occurring in every one of the given
/// sequences; an empty family yields the empty set.
pub fn common_items(sequences: &[&[usize]]) -> (res: HashSet<usize>)
    ensures
        forall|v: usize| #[trigger]
            res@.contains(v) <==> (sequences@.len() > 0 && in_all(views_of(sequences@), v)),
{
    let mut res: HashSet<usize> = HashSet::new();
    if sequences.len() == 0 {
        return res;
    }
    let first: &[usize] = sequences[0];
    let mut t: usize = 0;
    while t < first.len()
        invariant
            t <= first@.len(),
            first@ == sequences@[0]@,
            sequences@.len() > 0,
            forall|v: usize| #[trigger]
                res@.contains(v) ==> (first@.contains(v) && in_all(views_of(sequences@), v)),
            forall|u: int|
                0 <= u < t && in_all(views_of(sequences@), #[trigger] first@[u])
                    ==> res@.contains(first@[u]),
        decreases first@.len() - t,
    {
        let v: usize = first[t];
        if in_all_exec(sequences, v) {
            res.insert(v);
        }
        t = t + 1;
    }
    proof {
        assert forall|v: usize| #[trigger]
            res@.contains(v) <==> (sequences@.len() > 0 && in_all(
            views_of(sequences@),
            v,
        )) by {
            if in_all(views_of(sequences@), v) {
                assert(views_of(sequences@)[0].contains(v));
                assert(first@.contains(v));
                let u = choose|u: int| 0 <= u < first@.len() && first@[u] == v;
                assert(res@.contains(first@[u]));
            }
        }
    }
    res
}

/// Two predicates agreeing everywhere filter a sequence identically.
proof fn lemma_filter_congruent(s: Seq<usize>, p1: spec_fn(usize) -> bool, p2: spec_fn(
    usize,
) -> bool)
    requires
        forall|x: usize| #[trigger] p1(x) == p2(x),
    ensures
        s.filter(p1) == s.filter(p2),
    decreases s.len(),
{
    reveal(Seq::filter);
    if s.len() > 0 {
        lemma_filter_congruent(s.drop_last(), p1, p2);
    }
}

/// Keeps, in order, the values of `seq` that belong to `items`.
pub fn nub_sequence(seq: &[usize], items: &HashSet<usize>) -> (res: Vec<usize>)
    ensures
        res@ == seq@.filter(|x: usize| items@.contains(x)),
{
    let ghost pred = |x: usize| items@.contains(x);
    let mut res: Vec<usize> = Vec::new();
    let mut t: usize = 0;
    proof {
        reveal(Seq::filter);
        assert(seq@.take(0) =~= Seq::<usize>::empty());
        assert(res@ =~= seq@.take(0).filter(pred));
    }
    while t < seq.len()
        invariant
            t <= seq@.len(),
            res@ == seq@.take(t as int).filter(pred),
            pred == (|x: usize| items@.contains(x)),
        decreases seq@.len() - t,
    {
        let v: usize = seq[t];
        let keep: bool = items.contains(&v);
        let ghost old_res = res@;
        if keep {
            res.push(v);
        }
        proof {
            assert(seq@.take(t + 1) =~= seq@.take(t as int).push(v));
            seq@.take(t as int).lemma_filter_push(v, pred);
            if keep {
                assert(res@ =~= old_res.push(v));
            }
        }
        t = t + 1;
    }
    proof {
        assert(seq@.take(seq@.len() as int) =~= seq@);
    }
    res
}

/// True when the `k` values of `s` at `q` equal the `k` values of `s0` at
/// `p0`.
fn eq_window(s: &[usize], q: usize, s0: &[usize], p0: usize, k: usize) -> (r: bool)
    requires
        q + k <= s@.len(),
        p0 + k <= s0@.len(),
    ensures
        r == (s@.subrange(q as int, q + k) == s0@.subrange(p0 as int, p0 + k)),
{
    let n: usize = s.len();
    let n0: usize = s0.len();
    let mut d: usize = 0;
    while d < k
        invariant
            d <= k,
            q + k <= s@.len(),
            s@.len() == n,
            p0 + k <= s0@.len(),
            s0@.len() == n0,
            forall|e: int|
                0 <= e < d ==> #[trigger] s@.subrange(q as int, q + k)[e] == s0@.subrange(
                    p0 as int,
                    p0 + k,
                )[e],
        decreases k - d,
    {
        if s[q + d] != s0[p0 + d] {
            proof {
                assert(s@.subrange(q as int, q + k)[d as int] == s@[q + d]);
                assert(s0@.subrange(p0 as int, p0 + k)[d as int] == s0@[p0 + d]);
            }
            return false;
        }
        proof {
            assert(s@.subrange(q as int, q + k)[d as int] == s@[q + d]);
            assert(s0@.subrange(p0 as int, p0 + k)[d as int] == s0@[p0 + d]);
        }
        d = d + 1;
    }
    proof {
        assert(s@.subrange(q as int, q + k) =~= s0@.subrange(p0 as int, p0 + k));
    }
    true
}

/// True when the run of `s0` at `p0` of length `k` occurs somewhere in `s`.
fn has_window_exec(s: &[usize], s0: &[usize], p0: usize, k: usize) -> (r: bool)
    requires
        p0 + k <= s0@.len(),
        k >= 1,
    ensures
        r == seq_has_window(s@, s0@.subrange(p0 as int, p0 + k)),
{
    let ghost w = s0@.subrange(p0 as int, p0 + k as int);
    if s.len() < k {
        return false;
    }
    let mut q: usize = 0;
    while q <= s.len() - k
        invariant
            k >= 1,
            k <= s@.len(),
            p0 + k <= s0@.len(),
            q <= s@.len() - k + 1,
            forall|p: int|
                0 <= p < q ==> #[trigger] s@.subrange(p, p + k) != s0@.subrange(
                    p0 as int,
                    p0 + k as int,
                ),
        decreases s@.len() - k + 1 - q,
    {
        if eq_window(s, q, s0, p0, k) {
            proof {
                let ww = s0@.subrange(p0 as int, p0 + k as int);
                assert(s@.subrange(q as int, q + ww.len()) == ww);
                assert(0 <= q as int <= s@.len() - ww.len());
                assert(seq_has_window(s@, ww));
            }
            return true;
        }
        q = q + 1;
    }
    proof {
        assert forall|p: int| 0 <= p <= s@.len() - w.len() implies #[trigger] s@.subrange(
            p,
            p + w.len(),
        ) != w by {
            assert(p < q);
        }
    }
    false
}

/// True when the run of the family's first member at `p0` of length `k`
/// occurs in every member.
fn all_have_exec(sequences: &[&[usize]], p0: usize, k: usize) -> (r: bool)
    requires
        sequences@.len() >= 1,
        k >= 1,
        p0 + k <= sequences@[0]@.len(),
    ensures
        r == all_have_window(
            views_of(sequences@),
            sequences@[0]@.subrange(p0 as int, p0 + k),
        ),
{
    let s0: &[usize] = sequences[0];
    let mut i: usize = 0;
    while i < sequences.len()
        invariant
            i <= sequences@.len(),
            sequences@.len() >= 1,
            k >= 1,
            p0 + k <= sequences@[0]@.len(),
            s0@ == sequences@[0]@,
            forall|j: int|
                0 <= j < i ==> seq_has_window(
                    #[trigger] views_of(sequences@)[j],
                    sequences@[0]@.subrange(p0 as int, p0 + k),
                ),
        decreases sequences@.len() - i,
    {
        let present: bool = has_window_exec(sequences[i], s0, p0, k);
        if !present {
            proof {
                assert(!seq_has_window(
                    views_of(sequences@)[i as int],
                    sequences@[0]@.subrange(p0 as int, p0 + k),
                ));
            }
            return false;
        }
        i = i + 1;
    }
    true
}

/// True when some run of length `k` is shared by every sequence.
fn find_common_window(sequences: &[&[usize]], k: usize) -> (r: bool)
    requires
        sequences@.len() >= 1,
        k >= 1,
        k <= sequences@[0]@.len(),
    ensures
        r == has_common_window(views_of(sequences@), k as int),
{
    let s0: &[usize] = sequences[0];
    let mut p0: usize = 0;
    while p0 <= s0.len() - k
        invariant
            sequences@.len() >= 1,
            k >= 1,
            k <= sequences@[0]@.len(),
            s0@ == sequences@[0]@,
            p0 <= s0@.len() - k + 1,
            forall|p: int|
                0 <= p < p0 ==> !all_have_window(
                    views_of(sequences@),
                    #[trigger] sequences@[0]@.subrange(p, p + k),
                ),
        decreases s0@.len() - k + 1 - p0,
    {
        if all_have_exec(sequences, p0, k) {
            proof {
                let w = sequences@[0]@.subrange(p0 as int, p0 + k as int);
                assert(w.len() == k);
                assert(all_have_window(views_of(sequences@), w));
            }
            return true;
        }
        p0 = p0 + 1;
    }
    proof {
        let family = views_of(sequences@);
        assert forall|w: Seq<usize>| w.len() == k as int implies !all_have_window(
            family,
            w,
        ) by {
            if all_have_window(family, w) {
                assert(seq_has_window(family[0], w));
                let p = choose|p: int|
                    0 <= p <= family[0].len() - w.len() && #[trigger] family[0].subrange(
                        p,
                        p + w.len(),
                    ) == w;
                assert(p < p0);
                assert(!all_have_window(family, sequences@[0]@.subrange(p, p + k)));
            }
        }
    }
    false
}

/// Finds the largest window length `k`, strictly between one and the
/// shortest sequence's length, such that some contiguous run of `k` values
/// is shared by every sequence; zero when no such length exists.
pub fn longest_common_consecutive_subsequence(sequences: &[&[usize]]) -> (best: usize)
    requires
        sequences@.len() >= 1,
    ensures
        ({
            let family = views_of(sequences@);
            let ml = min_len_of(family) as int;
            &&& (best == 0 ==> forall|k: int| 2 <= k < ml ==> !has_common_window(family, k))
            &&& (best != 0 ==> 2 <= best < ml && has_common_window(family, best as int) && (forall|
                k: int,
            |
                best < k < ml ==> !has_common_window(family, k)))
        }),
{
    let min_len: usize = min_len_exec(sequences);
    if min_len < 3 {
        return 0;
    }
    let mut k: usize = min_len - 1;
    while k >= 2
        invariant
            sequences@.len() >= 1,
            1 <= k <= min_len - 1,
            min_len >= 3,
            min_len == min_len_of(views_of(sequences@)),
            forall|kk: int|
                k < kk < min_len ==> !has_common_window(views_of(sequences@), kk),
        decreases k,
    {
        proof {
            lemma_min_len_le(views_of(sequences@), 0);
        }
        if find_common_window(sequences, k) {
            return k;
        }
        k = k - 1;
    }
    0
}

/// The shortest sequence's length.
fn min_len_exec(sequences: &[&[usize]]) -> (ml: usize)
    requires
        sequences@.len() >= 1,
    ensures
        ml == min_len_of(views_of(sequences@)),
{
    let mut ml: usize = sequences[0].len();
    let mut i: usize = 1;
    proof {
        assert(views_of(sequences@).take(1).len() == 1);
        assert(views_of(sequences@).take(1)[0] == sequences@[0]@);
    }
    while i < sequences.len()
        invariant
            1 <= i <= sequences@.len(),
            ml == min_len_of(views_of(sequences@).take(i as int)),
        decreases sequences@.len() - i,
    {
        let li: usize = sequences[i].len();
        proof {
            let family = views_of(sequences@);
            assert(family.take(i + 1).drop_last() =~= family.take(i as int));
            assert(family.take(i + 1).last() == sequences@[i as int]@);
        }
        if li < ml {
            ml = li;
        }
        i = i + 1;
    }
    proof {
        assert(views_of(sequences@).take(sequences@.len() as int) =~= views_of(sequences@));
    }
    ml
}

/// Filters every sequence down to the values common to all of them, then
/// finds the longest contiguous run shared by all of the filtered
/// sequences, by decreasing window length.
pub fn longest_common_subsequence(sequences: &[&[usize]]) -> (best: usize)
    requires
        sequences@.len() >= 1,
    ensures
        ({
            let filtered = filtered_family(views_of(sequences@));
            let ml = min_len_of(filtered) as int;
            &&& (best == 0 ==> forall|k: int| 2 <= k < ml ==> !has_common_window(filtered, k))
            &&& (best != 0 ==> 2 <= best < ml && has_common_window(filtered, best as int) && (
            forall|k: int|
                best < k < ml ==> !has_common_window(filtered, k)))
        }),
{
    let common: HashSet<usize> = common_items(sequences);
    let mut consecutive: Vec<Vec<usize>> = Vec::new();
    let mut i: usize = 0;
    while i < sequences.len()
        invariant
            i <= sequences@.len(),
            sequences@.len() >= 1,
            forall|v: usize| #[trigger]
                common@.contains(v) <==> in_all(views_of(sequences@), v),
            consecutive@.len() == i,
            forall|j: int|
                0 <= j < i ==> #[trigger] consecutive@[j]@ == filtered_family(
                    views_of(sequences@),
                )[j],
        decreases sequences@.len() - i,
    {
        let row: Vec<usize> = nub_sequence(sequences[i], &common);
        proof {
            lemma_filter_congruent(
                sequences@[i as int]@,
                |x: usize| common@.contains(x),
                |x: usize| in_all(views_of(sequences@), x),
            );
        }
        consecutive.push(row);
        i = i + 1;
    }
    let mut slices: Vec<&[usize]> = Vec::new();
    let mut j: usize = 0;
    while j < consecutive.len()
        invariant
            j <= consecutive@.len(),
            slices@.len() == j,
            forall|t: int| 0 <= t < j ==> #[trigger] slices@[t]@ == consecutive@[t]@,
        decreases consecutive@.len() - j,
    {
        slices.push(consecutive[j].as_slice());
        j = j + 1;
    }
    proof {
        assert(views_of(slices@) =~= filtered_family(views_of(sequences@)));
    }
    longest_common_consecutive_subsequence(slices.as_slice())
}

/// The distance from the empty sequence to a prefix is the prefix length.
proof fn lemma_edit_dist_empty_prefix(s: Seq<char>, j: int)
    requires
        0 <= j <= s.len(),
    ensures
        edit_dist(Seq::<char>::empty(), s.take(j)) == j,
{
    assert(s.take(j).len() == j);
}

/// Unfolds the recurrence one step on non-empty prefixes.
proof fn lemma_edit_dist_step(a: Seq<char>, b: Seq<char>, i: int, j: int)
    requires
        1 <= i <= a.len(),
        1 <= j <= b.len(),
    ensures
        edit_dist(a.take(i), b.take(j)) == (if a[i - 1] == b[j - 1] {
            edit_dist(a.take(i - 1), b.take(j - 1))
        } else {
            (1 + min3_nat(
                edit_dist(a.take(i - 1), b.take(j - 1)),
                edit_dist(a.take(i - 1), b.take(j)),
                edit_dist(a.take(i), b.take(j - 1)),
            )) as nat
        }),
{
    let ai = a.take(i);
    let bj = b.take(j);
    assert(ai.drop_last() =~= a.take(i - 1));
    assert(bj.drop_last() =~= b.take(j - 1));
    assert(ai.last() == a[i - 1]);
    assert(bj.last() == b[j - 1]);
}

} // verus!
