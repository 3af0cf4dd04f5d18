//! The largest product of two values at distinct positions.

use vstd::prelude::*;

verus! {

/// Computes the maximum product of two values taken at distinct positions
/// of `lst`.
pub fn pairwise_product(lst: &[u64]) -> (r: u64)
    requires
        lst@.len() >= 2,
        forall|i: int| 0 <= i < lst@.len() ==> lst@[i] <= 0xffff_ffff,
    ensures
        exists|i: int, j: int|
            0 <= i < lst@.len() && 0 <= j < lst@.len() && i != j && r == #[trigger] (lst@[i]
                * lst@[j]),
        forall|i: int, j: int|
            0 <= i < lst@.len() && 0 <= j < lst@.len() && i != j ==> #[trigger] (lst@[i]
                * lst@[j]) <= r,
{
    let first: u64 = lst[0];
    let second: u64 = lst[1];
    let mut maxa: u64;
    let mut maxb: u64;
    let ghost mut ia: int;
    let ghost mut ib: int;
    if first < second {
        maxa = second;
        maxb = first;
        proof {
            ia = 1;
            ib = 0;
        }
    } else {
        maxa = first;
        maxb = second;
        proof {
            ia = 0;
            ib = 1;
        }
    }
    let mut t: usize = 2;
    while t < lst.len()
        invariant
            2 <= t <= lst@.len(),
            lst@.len() >= 2,
            forall|i: int| 0 <= i < lst@.len() ==> lst@[i] <= 0xffff_ffff,
            0 <= ia < t,
            0 <= ib < t,
            ia != ib,
            maxa == lst@[ia],
            maxb == lst@[ib],
            maxb <= maxa,
            forall|i: int| 0 <= i < t ==> lst@[i] <= maxa,
            forall|i: int| 0 <= i < t && i != ia ==> lst@[i] <= maxb,
        decreases lst@.len() - t,
    {
        let n: u64 = lst[t];
        if n > maxa {
            maxb = maxa;
            maxa = n;
            proof {
                ib = ia;
                ia = t as int;
            }
        } else if n > maxb {
            maxb = n;
            proof {
                ib = t as int;
            }
        }
        t = t + 1;
    }
    proof {
        assert(maxa * maxb <= 0xffff_ffff * 0xffff_ffff) by (nonlinear_arith)
            requires
                maxa <= 0xffff_ffff,
                maxb <= 0xffff_ffff,
        ;
        assert(lst@[ia] * lst@[ib] == maxa * maxb);
        assert forall|i: int, j: int|
            0 <= i < lst@.len() && 0 <= j < lst@.len() && i != j implies #[trigger] (lst@[i]
            * lst@[j]) <= maxa * maxb by {
            if i == ia {
                assert(lst@[j] <= maxb);
                assert(lst@[i] * lst@[j] <= maxa * maxb) by (nonlinear_arith)
                    requires
                        lst@[i] <= maxa,
                        lst@[j] <= maxb,
                        lst@[i] >= 0,
                        lst@[j] >= 0,
                        maxa >= 0,
                        maxb >= 0,
                ;
            } else {
                assert(lst@[i] <= maxb);
                assert(lst@[i] * lst@[j] <= maxb * maxa) by (nonlinear_arith)
                    requires
                        lst@[j] <= maxa,
                        lst@[i] <= maxb,
                        lst@[i] >= 0,
                        lst@[j] >= 0,
                        maxa >= 0,
                        maxb >= 0,
                ;
            }
        }
    }
    maxa * maxb
}

} // verus!
