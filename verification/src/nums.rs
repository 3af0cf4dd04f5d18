//! Greatest common divisor and least common multiple.

use vstd::arithmetic::div_mod::lemma_fundamental_div_mod;
use vstd::prelude::*;

verus! {

/// The greatest common divisor, defined by the Euclidean recurrence.
pub open spec fn gcd_spec(a: nat, b: nat) -> nat
    decreases b,
{
    if b == 0 {
        a
    } else {
        gcd_spec(b, a % b)
    }
}

/// The least common multiple; zero when both arguments are zero.
pub open spec fn lcm_spec(a: nat, b: nat) -> nat {
    if a == 0 && b == 0 {
        0
    } else {
        a * b / gcd_spec(a, b)
    }
}

/// The gcd is zero exactly when both arguments are zero.
pub proof fn lemma_gcd_zero(a: nat, b: nat)
    ensures
        gcd_spec(a, b) == 0 <==> (a == 0 && b == 0),
    decreases b,
{
    if b != 0 {
        lemma_gcd_zero(b, a % b);
    }
}

/// The gcd divides both of its arguments.
pub proof fn lemma_gcd_divides(a: nat, b: nat)
    requires
        gcd_spec(a, b) > 0,
    ensures
        a % gcd_spec(a, b) == 0,
        b % gcd_spec(a, b) == 0,
    decreases b,
{
    let g = gcd_spec(a, b);
    if b == 0 {
        assert(a % a == 0) by {
            lemma_fundamental_div_mod(a as int, a as int);
        }
        assert(b % a == 0);
    } else {
        lemma_gcd_divides(b, a % b);
        assert(b % g == 0);
        assert((a % b) % g == 0);
        lemma_mod_divides_sum(a, b, g);
    }
}

/// If g divides b and a % b, then g divides a (for b > 0).
proof fn lemma_mod_divides_sum(a: nat, b: nat, g: nat)
    requires
        b > 0,
        g > 0,
        b % g == 0,
        (a % b) % g == 0,
    ensures
        a % g == 0,
{
    let q = a / b;
    let r = a % b;
    lemma_fundamental_div_mod(a as int, b as int);
    assert(a == b * q + r);
    let bq = b / g;
    lemma_fundamental_div_mod(b as int, g as int);
    assert(b == g * bq);
    let rq = r / g;
    lemma_fundamental_div_mod(r as int, g as int);
    assert(r == g * rq);
    assert(a == g * (bq * q + rq)) by (nonlinear_arith)
        requires
            a == b * q + r,
            b == g * bq,
            r == g * rq,
    ;
    assert(a % g == 0) by (nonlinear_arith)
        requires
            g > 0,
            a == g * (bq * q + rq),
    ;
}

/// Computes the greatest common divisor of `a` and `b` by Euclid's algorithm.
pub fn gcd(a: u64, b: u64) -> (g: u64)
    ensures
        g == gcd_spec(a as nat, b as nat),
{
    let (mut x, mut y): (u64, u64) = if a < b {
        (b, a)
    } else {
        (a, b)
    };
    proof {
        if a < b {
            assert(a % b == a) by {
                vstd::arithmetic::div_mod::lemma_small_mod(a as nat, b as nat);
            }
        }
    }
    while y != 0
        invariant
            gcd_spec(x as nat, y as nat) == gcd_spec(a as nat, b as nat),
        decreases y,
    {
        let tmp: u64 = y;
        y = x % y;
        x = tmp;
    }
    x
}

/// Computes the least common multiple of `a` and `b`; zero when both are zero.
pub fn lcm(a: u64, b: u64) -> (l: u64)
    requires
        lcm_spec(a as nat, b as nat) <= u64::MAX,
    ensures
        l == lcm_spec(a as nat, b as nat),
{
    if a == 0 && b == 0 {
        return 0;
    }
    let g: u64 = gcd(a, b);
    proof {
        lemma_gcd_zero(a as nat, b as nat);
        lemma_gcd_divides(a as nat, b as nat);
        lemma_div_product_exact(a as nat, b as nat, g as nat);
    }
    (a / g) * b
}

/// When g > 0 divides a, (a / g) * b equals a * b / g.
proof fn lemma_div_product_exact(a: nat, b: nat, g: nat)
    requires
        g > 0,
        a % g == 0,
    ensures
        (a / g) * b == a * b / g,
{
    let q = a / g;
    lemma_fundamental_div_mod(a as int, g as int);
    assert(a == g * q);
    assert(a * b == g * (q * b)) by (nonlinear_arith)
        requires
            a == g * q,
    ;
    assert(g * (q * b) / g == q * b) by {
        vstd::arithmetic::div_mod::lemma_div_multiples_vanish(q * b as int, g as int);
    }
}

} // verus!
