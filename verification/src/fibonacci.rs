//! Fibonacci numbers, Pisano periods, and last-digit sums.

use vstd::arithmetic::div_mod::{
    lemma_add_mod_noop,
    lemma_mod_self_0,
    lemma_small_mod,
    lemma_sub_mod_noop,
};
use vstd::prelude::*;
use vstd::relations::injective_on;
use vstd::set_lib::{lemma_int_range, lemma_len_subset, lemma_map_size, set_int_range};

verus! {

/// The Fibonacci sequence: 0, 1, 1, 2, 3, 5, ...
pub open spec fn fib(n: int) -> nat
    decreases n,
{
    if n <= 0 {
        0
    } else if n == 1 {
        1
    } else {
        fib(n - 2) + fib(n - 1)
    }
}

/// Fibonacci numbers never decrease.
pub proof fn lemma_fib_monotonic(a: int, b: int)
    requires
        a <= b,
    ensures
        fib(a) <= fib(b),
    decreases b - a,
{
    if a < b {
        lemma_fib_monotonic(a, b - 1);
    }
}

/// One step of the Fibonacci recurrence on known values.
proof fn lemma_fib_step(k: int, a: nat, b: nat)
    requires
        k >= 0,
        fib(k) == a,
        fib(k + 1) == b,
    ensures
        fib(k + 2) == a + b,
{
}

/// The largest Fibonacci number a 64-bit word can hold is the 93rd.
pub proof fn lemma_fib_93()
    ensures
        fib(93) == 12200160415121876738,
{
    lemma_fib_step(0, 0, 1);
    lemma_fib_step(1, 1, 1);
    lemma_fib_step(2, 1, 2);
    lemma_fib_step(3, 2, 3);
    lemma_fib_step(4, 3, 5);
    lemma_fib_step(5, 5, 8);
    lemma_fib_step(6, 8, 13);
    lemma_fib_step(7, 13, 21);
    lemma_fib_step(8, 21, 34);
    lemma_fib_step(9, 34, 55);
    lemma_fib_step(10, 55, 89);
    lemma_fib_step(11, 89, 144);
    lemma_fib_step(12, 144, 233);
    lemma_fib_step(13, 233, 377);
    lemma_fib_step(14, 377, 610);
    lemma_fib_step(15, 610, 987);
    lemma_fib_step(16, 987, 1597);
    lemma_fib_step(17, 1597, 2584);
    lemma_fib_step(18, 2584, 4181);
    lemma_fib_step(19, 4181, 6765);
    lemma_fib_step(20, 6765, 10946);
    lemma_fib_step(21, 10946, 17711);
    lemma_fib_step(22, 17711, 28657);
    lemma_fib_step(23, 28657, 46368);
    lemma_fib_step(24, 46368, 75025);
    lemma_fib_step(25, 75025, 121393);
    lemma_fib_step(26, 121393, 196418);
    lemma_fib_step(27, 196418, 317811);
    lemma_fib_step(28, 317811, 514229);
    lemma_fib_step(29, 514229, 832040);
    lemma_fib_step(30, 832040, 1346269);
    lemma_fib_step(31, 1346269, 2178309);
    lemma_fib_step(32, 2178309, 3524578);
    lemma_fib_step(33, 3524578, 5702887);
    lemma_fib_step(34, 5702887, 9227465);
    lemma_fib_step(35, 9227465, 14930352);
    lemma_fib_step(36, 14930352, 24157817);
    lemma_fib_step(37, 24157817, 39088169);
    lemma_fib_step(38, 39088169, 63245986);
    lemma_fib_step(39, 63245986, 102334155);
    lemma_fib_step(40, 102334155, 165580141);
    lemma_fib_step(41, 165580141, 267914296);
    lemma_fib_step(42, 267914296, 433494437);
    lemma_fib_step(43, 433494437, 701408733);
    lemma_fib_step(44, 701408733, 1134903170);
    lemma_fib_step(45, 1134903170, 1836311903);
    lemma_fib_step(46, 1836311903, 2971215073);
    lemma_fib_step(47, 2971215073, 4807526976);
    lemma_fib_step(48, 4807526976, 7778742049);
    lemma_fib_step(49, 7778742049, 12586269025);
    lemma_fib_step(50, 12586269025, 20365011074);
    lemma_fib_step(51, 20365011074, 32951280099);
    lemma_fib_step(52, 32951280099, 53316291173);
    lemma_fib_step(53, 53316291173, 86267571272);
    lemma_fib_step(54, 86267571272, 139583862445);
    lemma_fib_step(55, 139583862445, 225851433717);
    lemma_fib_step(56, 225851433717, 365435296162);
    lemma_fib_step(57, 365435296162, 591286729879);
    lemma_fib_step(58, 591286729879, 956722026041);
    lemma_fib_step(59, 956722026041, 1548008755920);
    lemma_fib_step(60, 1548008755920, 2504730781961);
    lemma_fib_step(61, 2504730781961, 4052739537881);
    lemma_fib_step(62, 4052739537881, 6557470319842);
    lemma_fib_step(63, 6557470319842, 10610209857723);
    lemma_fib_step(64, 10610209857723, 17167680177565);
    lemma_fib_step(65, 17167680177565, 27777890035288);
    lemma_fib_step(66, 27777890035288, 44945570212853);
    lemma_fib_step(67, 44945570212853, 72723460248141);
    lemma_fib_step(68, 72723460248141, 117669030460994);
    lemma_fib_step(69, 117669030460994, 190392490709135);
    lemma_fib_step(70, 190392490709135, 308061521170129);
    lemma_fib_step(71, 308061521170129, 498454011879264);
    lemma_fib_step(72, 498454011879264, 806515533049393);
    lemma_fib_step(73, 806515533049393, 1304969544928657);
    lemma_fib_step(74, 1304969544928657, 2111485077978050);
    lemma_fib_step(75, 2111485077978050, 3416454622906707);
    lemma_fib_step(76, 3416454622906707, 5527939700884757);
    lemma_fib_step(77, 5527939700884757, 8944394323791464);
    lemma_fib_step(78, 8944394323791464, 14472334024676221);
    lemma_fib_step(79, 14472334024676221, 23416728348467685);
    lemma_fib_step(80, 23416728348467685, 37889062373143906);
    lemma_fib_step(81, 37889062373143906, 61305790721611591);
    lemma_fib_step(82, 61305790721611591, 99194853094755497);
    lemma_fib_step(83, 99194853094755497, 160500643816367088);
    lemma_fib_step(84, 160500643816367088, 259695496911122585);
    lemma_fib_step(85, 259695496911122585, 420196140727489673);
    lemma_fib_step(86, 420196140727489673, 679891637638612258);
    lemma_fib_step(87, 679891637638612258, 1100087778366101931);
    lemma_fib_step(88, 1100087778366101931, 1779979416004714189);
    lemma_fib_step(89, 1779979416004714189, 2880067194370816120);
    lemma_fib_step(90, 2880067194370816120, 4660046610375530309);
    lemma_fib_step(91, 4660046610375530309, 7540113804746346429);
}

/// Computes the `n`-th Fibonacci number.
pub fn fibonacci(n: u32) -> (r: u64)
    requires
        n <= 93,
    ensures
        r == fib(n as int),
{
    proof {
        lemma_fib_93();
        lemma_fib_monotonic(n as int, 93);
    }
    if n <= 1 {
        return n as u64;
    }
    let mut a: u64 = 0;
    let mut b: u64 = 1;
    let mut i: u32 = 1;
    while i < n
        invariant
            1 <= i <= n <= 93,
            a == fib(i - 1),
            b == fib(i as int),
            fib(93) == 12200160415121876738,
        decreases n - i,
    {
        proof {
            lemma_fib_monotonic(i + 1, 93);
        }
        let next: u64 = a + b;
        a = b;
        b = next;
        i = i + 1;
    }
    b
}

/// A Pisano point for modulus `m`: the pair of residues returns to (0, 1).
pub open spec fn pisano_point(k: int, m: int) -> bool {
    (fib(k) as int) % m == 0 && (fib(k + 1) as int) % m == 1
}

/// Once the residue pair returns to (0, 1) at `p`, the residues repeat
/// with period `p`.
proof fn lemma_fib_mod_shift(j: int, p: int, m: int)
    requires
        j >= 0,
        p >= 1,
        m >= 2,
        pisano_point(p, m),
    ensures
        (fib(j + p) as int) % m == (fib(j) as int) % m,
    decreases j,
{
    if j == 0 {
        assert(fib(0) == 0);
    } else if j == 1 {
        assert(fib(1) == 1);
        lemma_small_mod(1nat, m as nat);
    } else {
        lemma_fib_mod_shift(j - 1, p, m);
        lemma_fib_mod_shift(j - 2, p, m);
        assert(fib(j + p) == fib(j - 2 + p) + fib(j - 1 + p));
        lemma_add_mod_noop(fib(j - 2 + p) as int, fib(j - 1 + p) as int, m);
        assert(fib(j) == fib(j - 2) + fib(j - 1));
        lemma_add_mod_noop(fib(j - 2) as int, fib(j - 1) as int, m);
    }
}

/// Residues of the Fibonacci sequence may be read off at the index reduced
/// modulo any period whose residue pair is (0, 1).
pub proof fn lemma_fib_mod_reduce(n: int, p: int, m: int)
    requires
        n >= 0,
        p >= 1,
        m >= 2,
        pisano_point(p, m),
    ensures
        (fib(n) as int) % m == (fib(n % p) as int) % m,
    decreases n,
{
    if n < p {
        lemma_small_mod(n as nat, p as nat);
    } else {
        lemma_fib_mod_shift(n - p, p, m);
        lemma_fib_mod_reduce(n - p, p, m);
        assert((n - p) % p == n % p) by {
            lemma_sub_mod_noop(n, p, p);
            lemma_mod_twice_int(n, p);
        }
    }
}

/// Reducing twice is the same as reducing once.
proof fn lemma_mod_twice_int(x: int, m: int)
    requires
        m >= 1,
    ensures
        (x % m) % m == x % m,
{
    lemma_small_mod((x % m) as nat, m as nat);
}

/// One step of the last-digit recurrence.
proof fn lemma_fib_mod10_step(k: int, a: int, b: int)
    requires
        k >= 0,
        (fib(k) as int) % 10 == a,
        (fib(k + 1) as int) % 10 == b,
    ensures
        (fib(k + 2) as int) % 10 == (a + b) % 10,
{
    assert(fib(k + 2) == fib(k) + fib(k + 1));
    lemma_add_mod_noop(fib(k) as int, fib(k + 1) as int, 10);
}

/// The last digits of the Fibonacci sequence return to the pair (0, 1)
/// after sixty steps.
pub proof fn lemma_fib_mod10_table()
    ensures
        pisano_point(60, 10),
{
    lemma_fib_mod10_step(0, 0, 1);
    lemma_fib_mod10_step(1, 1, 1);
    lemma_fib_mod10_step(2, 1, 2);
    lemma_fib_mod10_step(3, 2, 3);
    lemma_fib_mod10_step(4, 3, 5);
    lemma_fib_mod10_step(5, 5, 8);
    lemma_fib_mod10_step(6, 8, 3);
    lemma_fib_mod10_step(7, 3, 1);
    lemma_fib_mod10_step(8, 1, 4);
    lemma_fib_mod10_step(9, 4, 5);
    lemma_fib_mod10_step(10, 5, 9);
    lemma_fib_mod10_step(11, 9, 4);
    lemma_fib_mod10_step(12, 4, 3);
    lemma_fib_mod10_step(13, 3, 7);
    lemma_fib_mod10_step(14, 7, 0);
    lemma_fib_mod10_step(15, 0, 7);
    lemma_fib_mod10_step(16, 7, 7);
    lemma_fib_mod10_step(17, 7, 4);
    lemma_fib_mod10_step(18, 4, 1);
    lemma_fib_mod10_step(19, 1, 5);
    lemma_fib_mod10_step(20, 5, 6);
    lemma_fib_mod10_step(21, 6, 1);
    lemma_fib_mod10_step(22, 1, 7);
    lemma_fib_mod10_step(23, 7, 8);
    lemma_fib_mod10_step(24, 8, 5);
    lemma_fib_mod10_step(25, 5, 3);
    lemma_fib_mod10_step(26, 3, 8);
    lemma_fib_mod10_step(27, 8, 1);
    lemma_fib_mod10_step(28, 1, 9);
    lemma_fib_mod10_step(29, 9, 0);
    lemma_fib_mod10_step(30, 0, 9);
    lemma_fib_mod10_step(31, 9, 9);
    lemma_fib_mod10_step(32, 9, 8);
    lemma_fib_mod10_step(33, 8, 7);
    lemma_fib_mod10_step(34, 7, 5);
    lemma_fib_mod10_step(35, 5, 2);
    lemma_fib_mod10_step(36, 2, 7);
    lemma_fib_mod10_step(37, 7, 9);
    lemma_fib_mod10_step(38, 9, 6);
    lemma_fib_mod10_step(39, 6, 5);
    lemma_fib_mod10_step(40, 5, 1);
    lemma_fib_mod10_step(41, 1, 6);
    lemma_fib_mod10_step(42, 6, 7);
    lemma_fib_mod10_step(43, 7, 3);
    lemma_fib_mod10_step(44, 3, 0);
    lemma_fib_mod10_step(45, 0, 3);
    lemma_fib_mod10_step(46, 3, 3);
    lemma_fib_mod10_step(47, 3, 6);
    lemma_fib_mod10_step(48, 6, 9);
    lemma_fib_mod10_step(49, 9, 5);
    lemma_fib_mod10_step(50, 5, 4);
    lemma_fib_mod10_step(51, 4, 9);
    lemma_fib_mod10_step(52, 9, 3);
    lemma_fib_mod10_step(53, 3, 2);
    lemma_fib_mod10_step(54, 2, 5);
    lemma_fib_mod10_step(55, 5, 7);
    lemma_fib_mod10_step(56, 7, 2);
    lemma_fib_mod10_step(57, 2, 9);
    lemma_fib_mod10_step(58, 9, 1);
    lemma_fib_mod10_step(59, 1, 0);
}

/// Steps the residue pair backward: equal pairs stay equal one index down.
proof fn lemma_fib_pair_back(i: int, j: int, m: int)
    requires
        i >= 1,
        j >= 1,
        m >= 2,
        (fib(i) as int) % m == (fib(j) as int) % m,
        (fib(i + 1) as int) % m == (fib(j + 1) as int) % m,
    ensures
        (fib(i - 1) as int) % m == (fib(j - 1) as int) % m,
{
    assert(fib(i + 1) == fib(i - 1) + fib(i));
    assert(fib(j + 1) == fib(j - 1) + fib(j));
    lemma_sub_mod_noop(fib(i + 1) as int, fib(i) as int, m);
    lemma_sub_mod_noop(fib(j + 1) as int, fib(j) as int, m);
}

/// Equal residue pairs at `i` and `j` push down to the pair (0, 1) meeting
/// index `j - i`.
proof fn lemma_fib_pair_shift_down(i: int, j: int, m: int)
    requires
        0 <= i <= j,
        m >= 2,
        (fib(i) as int) % m == (fib(j) as int) % m,
        (fib(i + 1) as int) % m == (fib(j + 1) as int) % m,
    ensures
        (fib(j - i) as int) % m == 0,
        (fib(j - i + 1) as int) % m == (fib(1) as int) % m,
    decreases i,
{
    if i > 0 {
        lemma_fib_pair_back(i, j, m);
        lemma_fib_pair_shift_down(i - 1, j - 1, m);
    } else {
        assert(fib(0) == 0);
        assert(j - i == j);
        assert((fib(j) as int) % m == (fib(0) as int) % m);
        assert((fib(0) as int) % m == 0) by {
            lemma_small_mod(0nat, m as nat);
        }
    }
}

/// The Fibonacci residue pairs at `i` and `j` agree modulo `m`.
spec fn equal_fib_pair(i: int, j: int, m: int) -> bool {
    (fib(i) as int) % m == (fib(j) as int) % m && (fib(i + 1) as int) % m == (fib(j + 1) as int)
        % m
}

/// Distinct digits decode distinct pair encodings.
proof fn lemma_encode_inj(a1: int, b1: int, a2: int, b2: int, m: int)
    requires
        m >= 1,
        0 <= a1 < m,
        0 <= b1 < m,
        0 <= a2 < m,
        0 <= b2 < m,
        a1 * m + b1 == a2 * m + b2,
    ensures
        a1 == a2,
        b1 == b2,
{
    assert(a1 == a2 && b1 == b2) by (nonlinear_arith)
        requires
            m >= 1,
            0 <= a1 < m,
            0 <= b1 < m,
            0 <= a2 < m,
            0 <= b2 < m,
            a1 * m + b1 == a2 * m + b2,
    ;
}

/// By pigeonhole on the m * m possible residue pairs, the pair (0, 1)
/// recurs within the first m * m steps.
pub proof fn lemma_pisano_exists(m: int)
    requires
        m >= 2,
    ensures
        exists|k: int| 1 <= k <= m * m && #[trigger] pisano_point(k, m),
{
    let f = |i: int| ((fib(i) as int) % m) * m + (fib(i + 1) as int) % m;
    if exists|i: int, j: int| 0 <= i < j <= m * m && #[trigger] equal_fib_pair(i, j, m) {
        let (i, j) = choose|i: int, j: int|
            0 <= i < j <= m * m && #[trigger] equal_fib_pair(i, j, m);
        lemma_fib_pair_shift_down(i, j, m);
        lemma_small_mod(1nat, m as nat);
        let k = j - i;
        assert(1 <= k <= m * m);
        assert(pisano_point(k, m));
    } else {
        let dom = set_int_range(0, m * m + 1);
        let img = dom.map(f);
        lemma_int_range(0, m * m + 1);
        assert(injective_on(f, dom)) by {
            assert forall|x1: int, x2: int|
                dom.contains(x1) && dom.contains(x2) && #[trigger] f(x1) == #[trigger] f(
                    x2,
                ) implies x1 == x2 by {
                lemma_encode_inj(
                    (fib(x1) as int) % m,
                    (fib(x1 + 1) as int) % m,
                    (fib(x2) as int) % m,
                    (fib(x2 + 1) as int) % m,
                    m,
                );
                if x1 < x2 {
                    assert(equal_fib_pair(x1, x2, m));
                } else if x2 < x1 {
                    assert(equal_fib_pair(x2, x1, m));
                }
            }
        }
        lemma_map_size(dom, img, f);
        lemma_int_range(0, m * m);
        assert(img.subset_of(set_int_range(0, m * m))) by {
            assert forall|y: int| img.contains(y) implies set_int_range(0, m * m).contains(
                y,
            ) by {
                let x = choose|x: int| dom.contains(x) && f(x) == y;
                assert(0 <= (fib(x) as int) % m < m);
                assert(0 <= (fib(x + 1) as int) % m < m);
                assert(((fib(x) as int) % m) * m + (fib(x + 1) as int) % m < m * m)
                    by (nonlinear_arith)
                    requires
                        m >= 2,
                        0 <= (fib(x) as int) % m < m,
                        0 <= (fib(x + 1) as int) % m < m,
                ;
            }
        }
        lemma_len_subset(img, set_int_range(0, m * m));
        assert(false);
    }
}

/// Computes the Pisano period of `m`: the first index at which the pair of
/// Fibonacci residues modulo `m` returns to (0, 1).
pub fn pisano(m: u64) -> (p: u64)
    requires
        2 <= m,
        m <= 0xffff_ffff,
    ensures
        1 <= p,
        pisano_point(p as int, m as int),
        forall|j: int| 1 <= j < p ==> !#[trigger] pisano_point(j, m as int),
{
    proof {
        lemma_pisano_exists(m as int);
        assert((m as int) * (m as int) <= 0xffff_ffff_ffff_ffff) by (nonlinear_arith)
            requires
                2 <= m as int <= 0xffff_ffff,
        ;
    }
    let ghost kk = choose|k: int| 1 <= k <= (m as int) * (m as int) && #[trigger] pisano_point(
        k,
        m as int,
    );
    let mut previous: u64 = 0;
    let mut current: u64 = 1;
    let mut counter: u64 = 0;
    proof {
        assert(fib(0) == 0);
        assert(fib(1) == 1);
        lemma_small_mod(1nat, m as nat);
    }
    loop
        invariant_except_break
            2 <= m <= 0xffff_ffff,
            1 <= kk <= (m as int) * (m as int),
            (m as int) * (m as int) <= 0xffff_ffff_ffff_ffff,
            pisano_point(kk, m as int),
            counter <= kk,
            previous == (fib(counter as int) as int) % (m as int),
            current == (fib(counter as int + 1) as int) % (m as int),
            forall|j: int| 1 <= j <= counter ==> !#[trigger] pisano_point(j, m as int),
        ensures
            1 <= counter,
            pisano_point(counter as int, m as int),
            forall|j: int| 1 <= j < counter ==> !#[trigger] pisano_point(j, m as int),
        decreases kk - counter,
    {
        proof {
            if counter == kk {
                assert(!pisano_point(kk, m as int));
            }
        }
        counter = counter + 1;
        let tmp: u64 = previous;
        previous = current;
        current = (tmp + current) % m;
        proof {
            assert(fib(counter as int + 1) == fib(counter as int - 1) + fib(counter as int));
            lemma_add_mod_noop(
                fib(counter as int - 1) as int,
                fib(counter as int) as int,
                m as int,
            );
            lemma_mod_twice_int(
                (fib(counter as int - 1) as int) % (m as int) + (fib(counter as int) as int) % (
                m as int),
                m as int,
            );
        }
        if previous == 0 && current == 1 {
            break;
        }
    }
    counter
}

/// Computes the `n`-th Fibonacci number modulo `m`, reducing the index by
/// the Pisano period first.
pub fn fibonacci_modulus(n: u64, m: u64) -> (r: u64)
    requires
        2 <= m,
        m <= 0xffff_ffff,
    ensures
        r as int == (fib(n as int) as int) % (m as int),
{
    let p: u64 = pisano(m);
    let new_n: u64 = n % p;
    proof {
        lemma_fib_mod_reduce(n as int, p as int, m as int);
    }
    if new_n == 0 {
        proof {
            assert((n as int) % (p as int) == new_n as int);
            assert(fib(0) == 0);
            lemma_small_mod(0nat, m as nat);
            assert((fib(n as int) as int) % (m as int) == 0);
        }
        return 0;
    }
    if new_n == 1 {
        proof {
            assert(fib(1) == 1);
            lemma_small_mod(1nat, m as nat);
        }
        return 1;
    }
    let mut a: u64 = 0;
    let mut b: u64 = 1;
    let mut i: u64 = 1;
    proof {
        assert(fib(0) == 0);
        assert(fib(1) == 1);
        lemma_small_mod(0nat, m as nat);
        lemma_small_mod(1nat, m as nat);
    }
    while i < new_n
        invariant
            1 <= i <= new_n,
            2 <= m <= 0xffff_ffff,
            a == (fib(i - 1) as int) % (m as int),
            b == (fib(i as int) as int) % (m as int),
        decreases new_n - i,
    {
        let next: u64 = (a + b) % m;
        proof {
            assert(fib(i as int + 1) == fib(i - 1) + fib(i as int));
            lemma_add_mod_noop(fib(i - 1) as int, fib(i as int) as int, m as int);
            lemma_mod_twice_int(
                (fib(i - 1) as int) % (m as int) + (fib(i as int) as int) % (m as int),
                m as int,
            );
        }
        a = b;
        b = next;
        i = i + 1;
    }
    b
}

/// The last digit of the `x`-th Fibonacci number, for small `x`.
fn fib_mod10_small(x: u64) -> (r: u8)
    requires
        x <= 61,
    ensures
        r as int == (fib(x as int) as int) % 10,
{
    if x == 0 {
        return 0;
    }
    let mut a: u8 = 0;
    let mut b: u8 = 1;
    let mut i: u64 = 1;
    while i < x
        invariant
            1 <= i <= x,
            a == (fib(i - 1) as int) % 10,
            b == (fib(i as int) as int) % 10,
        decreases x - i,
    {
        let next: u8 = (a + b) % 10;
        proof {
            assert(fib(i as int + 1) == fib(i - 1) + fib(i as int));
            lemma_add_mod_noop(fib(i - 1) as int, fib(i as int) as int, 10);
            lemma_mod_twice_int(
                (fib(i - 1) as int) % 10 + (fib(i as int) as int) % 10,
                10,
            );
        }
        a = b;
        b = next;
        i = i + 1;
    }
    b
}

/// The last digit of the `n`-th Fibonacci number, using the sixty-step
/// period of Fibonacci last digits.
pub fn fibonacci_ends(n: u64) -> (r: u8)
    ensures
        r as int == (fib(n as int) as int) % 10,
{
    proof {
        lemma_fib_mod10_table();
        lemma_fib_mod_reduce(n as int, 60, 10);
    }
    fib_mod10_small(n % 60)
}

/// The sum of the Fibonacci numbers up to index `n` inclusive.
pub open spec fn fib_sum(n: int) -> nat
    decreases n + 1,
{
    if n < 0 {
        0
    } else {
        fib_sum(n - 1) + fib(n)
    }
}

/// The Fibonacci prefix sum in closed form: one less than the number two
/// places further on.
pub proof fn lemma_fib_sum_identity(n: int)
    requires
        n >= 0,
    ensures
        fib_sum(n) + 1 == fib(n + 2),
    decreases n,
{
    if n == 0 {
        assert(fib_sum(-1) == 0);
        assert(fib(0) == 0 && fib(1) == 1 && fib(2) == 1);
    } else {
        lemma_fib_sum_identity(n - 1);
        assert(fib(n + 2) == fib(n) + fib(n + 1));
    }
}

/// The last digit of the sum of the Fibonacci numbers up to index `n`.
pub fn fibonacci_sum_ends(n: u64) -> (r: u8)
    ensures
        r as int == (fib_sum(n as int) as int) % 10,
{
    let reduced: u64 = n % 60 + 2;
    let d: u8 = fib_mod10_small(reduced);
    proof {
        lemma_fib_mod10_table();
        lemma_fib_mod_reduce(n as int + 2, 60, 10);
        lemma_fib_mod_reduce(reduced as int, 60, 10);
        lemma_add_mod_noop(n as int, 2, 60);
        lemma_small_mod(2nat, 60nat);
        lemma_mod_twice_int(n as int, 60);
        assert((n as int + 2) % 60 == (reduced as int) % 60);
        assert((fib(n as int + 2) as int) % 10 == d as int);
        lemma_fib_sum_identity(n as int);
        // fib_sum(n) == fib(n + 2) - 1, so its last digit is (d + 9) % 10
        let s = fib_sum(n as int) as int;
        assert(s == fib(n as int + 2) - 1);
        lemma_add_mod_noop(s, 10, 10);
        lemma_mod_self_0(10);
        lemma_mod_twice_int(s, 10);
        assert(s % 10 == (s + 10) % 10);
        lemma_add_mod_noop(fib(n as int + 2) as int, 9, 10);
        lemma_small_mod(9nat, 10nat);
        lemma_mod_twice_int((fib(n as int + 2) as int) % 10 + 9, 10);
        assert((s + 10) % 10 == (d as int + 9) % 10);
    }
    (d + 9) % 10
}

/// The sum of the Fibonacci numbers with indices in `[m, n]`.
pub open spec fn fib_range_sum(m: int, n: int) -> nat
    decreases n - m + 1,
{
    if m > n {
        0
    } else {
        fib_range_sum(m, n - 1) + fib(n)
    }
}

/// A range sum is the difference of two prefix sums.
proof fn lemma_fib_range_split(m: int, n: int)
    requires
        0 <= m <= n,
    ensures
        fib_range_sum(m, n) + fib_sum(m - 1) == fib_sum(n),
    decreases n - m,
{
    if m == n {
        assert(fib_range_sum(m, m - 1) == 0);
    } else {
        lemma_fib_range_split(m, n - 1);
    }
}

/// The last digit of the sum of the Fibonacci numbers with indices from
/// `m` through `n` inclusive; for a backwards range the result is
/// unspecified.
pub fn fibonacci_sum_range_ends(m: u64, n: u64) -> (r: u8)
    ensures
        m <= n ==> r as int == (fib_range_sum(m as int, n as int) as int) % 10,
{
    let sn: u8 = fibonacci_sum_ends(n);
    let sm: u8 = if m == 0 {
        0
    } else {
        fibonacci_sum_ends(m - 1)
    };
    proof {
        if m <= n {
            lemma_fib_range_split(m as int, n as int);
            let hi = fib_sum(n as int) as int;
            let lo = fib_sum(m as int - 1) as int;
            lemma_sub_mod_noop(hi, lo, 10);
            // shift the difference of digits into [0, 20) before reducing
            lemma_add_mod_noop(hi % 10 - lo % 10, 10, 10);
            lemma_mod_self_0(10);
            lemma_mod_twice_int(hi % 10 - lo % 10, 10);
            assert((hi - lo) % 10 == (sn as int + 10 - sm as int) % 10);
        }
    }
    (sn + 10 - sm) % 10
}

} // verus!
