//! Two classics of arithmetic: the Fibonacci numbers and the sieve of
//! Eratosthenes.

use vstd::arithmetic::div_mod::*;
use vstd::arithmetic::mul::*;
use vstd::prelude::*;

verus! {

/// The Fibonacci numbers: 0, 1, and from there each the sum of the two before.
pub open spec fn fib(n: nat) -> nat
    decreases n,
{
    if n < 2 {
        n
    } else {
        fib((n - 1) as nat) + fib((n - 2) as nat)
    }
}

/// The index of the largest Fibonacci number that fits 64 bits.
pub const MAX_FIBONACCI_INDEX: u32 = 93;

/// The Fibonacci numbers grow with their index.
pub proof fn lemma_fib_monotonic(i: nat, j: nat)
    requires
        i <= j,
    ensures
        fib(i) <= fib(j),
    decreases j,
{
    if i < j {
        lemma_fib_monotonic(i, (j - 1) as nat);
        if j >= 2 {
        }
    }
}

/// The 93rd Fibonacci number, the largest to fit 64 bits.
pub proof fn lemma_fib_93()
    ensures
        fib(93) == 12200160415121876738,
        fib(93) <= u64::MAX,
{
    assert(fib(0) == 0);
    assert(fib(1) == 1);
    assert(fib(2) == 1);
    assert(fib(3) == 2);
    assert(fib(4) == 3);
    assert(fib(5) == 5);
    assert(fib(6) == 8);
    assert(fib(7) == 13);
    assert(fib(8) == 21);
    assert(fib(9) == 34);
    assert(fib(10) == 55);
    assert(fib(11) == 89);
    assert(fib(12) == 144);
    assert(fib(13) == 233);
    assert(fib(14) == 377);
    assert(fib(15) == 610);
    assert(fib(16) == 987);
    assert(fib(17) == 1597);
    assert(fib(18) == 2584);
    assert(fib(19) == 4181);
    assert(fib(20) == 6765);
    assert(fib(21) == 10946);
    assert(fib(22) == 17711);
    assert(fib(23) == 28657);
    assert(fib(24) == 46368);
    assert(fib(25) == 75025);
    assert(fib(26) == 121393);
    assert(fib(27) == 196418);
    assert(fib(28) == 317811);
    assert(fib(29) == 514229);
    assert(fib(30) == 832040);
    assert(fib(31) == 1346269);
    assert(fib(32) == 2178309);
    assert(fib(33) == 3524578);
    assert(fib(34) == 5702887);
    assert(fib(35) == 9227465);
    assert(fib(36) == 14930352);
    assert(fib(37) == 24157817);
    assert(fib(38) == 39088169);
    assert(fib(39) == 63245986);
    assert(fib(40) == 102334155);
    assert(fib(41) == 165580141);
    assert(fib(42) == 267914296);
    assert(fib(43) == 433494437);
    assert(fib(44) == 701408733);
    assert(fib(45) == 1134903170);
    assert(fib(46) == 1836311903);
    assert(fib(47) == 2971215073);
    assert(fib(48) == 4807526976);
    assert(fib(49) == 7778742049);
    assert(fib(50) == 12586269025);
    assert(fib(51) == 20365011074);
    assert(fib(52) == 32951280099);
    assert(fib(53) == 53316291173);
    assert(fib(54) == 86267571272);
    assert(fib(55) == 139583862445);
    assert(fib(56) == 225851433717);
    assert(fib(57) == 365435296162);
    assert(fib(58) == 591286729879);
    assert(fib(59) == 956722026041);
    assert(fib(60) == 1548008755920);
    assert(fib(61) == 2504730781961);
    assert(fib(62) == 4052739537881);
    assert(fib(63) == 6557470319842);
    assert(fib(64) == 10610209857723);
    assert(fib(65) == 17167680177565);
    assert(fib(66) == 27777890035288);
    assert(fib(67) == 44945570212853);
    assert(fib(68) == 72723460248141);
    assert(fib(69) == 117669030460994);
    assert(fib(70) == 190392490709135);
    assert(fib(71) == 308061521170129);
    assert(fib(72) == 498454011879264);
    assert(fib(73) == 806515533049393);
    assert(fib(74) == 1304969544928657);
    assert(fib(75) == 2111485077978050);
    assert(fib(76) == 3416454622906707);
    assert(fib(77) == 5527939700884757);
    assert(fib(78) == 8944394323791464);
    assert(fib(79) == 14472334024676221);
    assert(fib(80) == 23416728348467685);
    assert(fib(81) == 37889062373143906);
    assert(fib(82) == 61305790721611591);
    assert(fib(83) == 99194853094755497);
    assert(fib(84) == 160500643816367088);
    assert(fib(85) == 259695496911122585);
    assert(fib(86) == 420196140727489673);
    assert(fib(87) == 679891637638612258);
    assert(fib(88) == 1100087778366101931);
    assert(fib(89) == 1779979416004714189);
    assert(fib(90) == 2880067194370816120);
    assert(fib(91) == 4660046610375530309);
    assert(fib(92) == 7540113804746346429);
    assert(fib(93) == 12200160415121876738);
}

/// The `n`th Fibonacci number.
pub fn fibonacci(n: u32) -> (r: u64)
    requires
        n <= MAX_FIBONACCI_INDEX,
    ensures
        r == fib(n as nat),
{
    if n <= 1 {
        return n as u64;
    }
    let mut a: u64 = 0;
    let mut b: u64 = 1;
    let mut i: u32 = 2;
    while i <= n
        invariant
            2 <= i <= n + 1,
            n <= 93,
            a == fib((i - 2) as nat),
            b == fib((i - 1) as nat),
        decreases n + 1 - i,
    {
        proof {
            lemma_fib_93();
            lemma_fib_monotonic(i as nat, 93);
        }
        let next = a + b;
        a = b;
        b = next;
        i = i + 1;
    }
    b
}

/// Whether `n` is prime: at least 2, and divisible by nothing from 2 to
/// below itself.
pub open spec fn is_prime(n: int) -> bool {
    n >= 2 && forall|d: int| 2 <= d < n ==> #[trigger] (n % d) != 0
}

/// Whether `n` has no divisor from 2 to below `bound` other than itself.
pub open spec fn sifted(n: int, bound: int) -> bool {
    forall|d: int| 2 <= d < bound && d < n ==> #[trigger] (n % d) != 0
}

/// What divides a divisor divides the number.
pub proof fn lemma_divides_transitive(d: int, p: int, k: int)
    requires
        d > 0,
        p > 0,
        k >= 0,
        p % d == 0,
        k % p == 0,
    ensures
        k % d == 0,
{
    lemma_fundamental_div_mod(p, d);
    lemma_fundamental_div_mod(k, p);
    let a = k / p;
    let b = p / d;
    assert(k == d * (b * a)) by (nonlinear_arith)
        requires
            k == p * a,
            p == d * b,
    ;
    lemma_mod_multiples_basic(b * a, d);
    lemma_mul_is_commutative(d, b * a);
}

/// The product of two numbers of which the first is at least two has the
/// second as a proper divisor.
pub proof fn lemma_product_divisible(c: int, p: int)
    requires
        c >= 1,
        p >= 1,
    ensures
        (c * p) % p == 0,
        (c * p) % c == 0,
        c * p >= p,
        c * p >= c,
{
    lemma_mod_multiples_basic(c, p);
    lemma_mod_multiples_basic(p, c);
    lemma_mul_is_commutative(c, p);
    assert(c * p >= p && c * p >= c) by (nonlinear_arith)
        requires
            c >= 1,
            p >= 1,
    ;
}

/// A number that nothing below `p` divides, with `p * p` beyond it, is prime.
pub proof fn lemma_sifted_is_prime(k: int, p: int)
    requires
        k >= 2,
        p >= 2,
        p * p > k,
        sifted(k, p),
    ensures
        is_prime(k),
{
    assert forall|d: int| 2 <= d < k implies #[trigger] (k % d) != 0 by {
        if k % d == 0 {
            // The cofactor divides too, and one of the two is below p.
            let c = k / d;
            lemma_fundamental_div_mod(k, d);
            assert(k == d * c);
            assert(c >= 2 && c < k) by (nonlinear_arith)
                requires
                    k == d * c,
                    2 <= d < k,
            ;
            if d < p {
                assert(k % d != 0);
            } else {
                assert(c < p) by (nonlinear_arith)
                    requires
                        k == d * c,
                        d >= p,
                        p * p > k,
                        p >= 2,
                        c >= 2,
                ;
                lemma_product_divisible(d, c);
                lemma_mul_is_commutative(d, c);
                assert(k % c == 0);
                assert(false);
            }
        }
    }
}

/// Sifting by one more number: `k` survives the divisors below `p + 1`
/// where it survives those below `p` and is no proper multiple of `p`.
pub proof fn lemma_next_sift(k: int, p: int)
    requires
        p >= 2,
    ensures
        sifted(k, p + 1) <==> (sifted(k, p) && !(k % p == 0 && p < k)),
{
    if sifted(k, p + 1) {
        assert forall|d: int| 2 <= d < p && d < k implies #[trigger] (k % d) != 0 by {}
        if p < k {
            assert(k % p != 0);
        }
    }
    if sifted(k, p) && !(k % p == 0 && p < k) {
        assert forall|d: int| 2 <= d < p + 1 && d < k implies #[trigger] (k % d) != 0 by {
            if d < p {
            }
        }
    }
}

/// A proper multiple of `p` that nothing below `p` divides is at least `p * p`.
pub proof fn lemma_sifted_multiple(k: int, p: int)
    requires
        p >= 2,
        p < k,
        k % p == 0,
        sifted(k, p),
    ensures
        p * p <= k,
{
    if k < p * p {
        lemma_fundamental_div_mod(k, p);
        let q = k / p;
        assert(2 <= q < p) by (nonlinear_arith)
            requires
                k == p * q,
                p < k < p * p,
                p >= 2,
        ;
        lemma_product_divisible(q, p);
        lemma_mul_is_commutative(q, p);
        assert(k % q == 0);
        assert(q < k);
    }
}

/// No proper multiple of a number with a divisor below itself survives
/// the sifting by what lies below that number.
pub proof fn lemma_multiple_of_composite(k: int, p: int)
    requires
        p >= 2,
        p < k,
        k % p == 0,
        !sifted(p, p),
    ensures
        !sifted(k, p),
{
    let d = choose|d: int| 2 <= d < p && d < p && #[trigger] (p % d) == 0;
    lemma_divides_transitive(d, p, k);
    assert(k % d == 0);
}

/// The primes up to `limit`, ascending.
pub fn prime_sieve(limit: u32) -> (primes: Vec<u32>)
    requires
        limit < u32::MAX,
    ensures
        forall|i: int| 0 <= i < primes@.len() ==> is_prime(#[trigger] primes@[i] as int),
        forall|i: int, j: int| 0 <= i < j < primes@.len() ==> primes@[i] < primes@[j],
        forall|n: int| 0 <= n <= limit && is_prime(n) ==> primes@.contains(n as u32),
        forall|i: int| 0 <= i < primes@.len() ==> #[trigger] primes@[i] <= limit,
{
    if limit < 2 {
        return Vec::new();
    }
    let size: usize = (limit + 1) as usize;
    let mut marks: Vec<bool> = vec![true; size];
    marks.set(0, false);
    marks.set(1, false);
    let mut p: u64 = 2;
    loop
        invariant_except_break
            2 <= p <= 0x1_0000,
        invariant
            2 <= p,
            limit >= 2,
            marks@.len() == size == limit + 1,
            forall|k: int| 2 <= k <= limit ==> (#[trigger] marks@[k] <==> sifted(k, p as int)),
        ensures
            p * p > limit,
        decreases 0x1_0000 - p,
    {
        assert(p * p <= 0x1_0000 * 0x1_0000) by (nonlinear_arith)
            requires
                p <= 0x1_0000,
        ;
        if p * p > limit as u64 {
            break;
        }
        assert(p < 0x1_0000 && p <= limit) by (nonlinear_arith)
            requires
                p * p <= limit,
                limit < 0x1_0000_0000,
                p >= 2,
        ;
        if marks[p as usize] {
            strike_multiples(&mut marks, p, limit);
            proof {
                assert forall|k: int| 2 <= k <= limit implies (#[trigger] marks@[k] <==> sifted(
                    k,
                    p + 1,
                )) by {
                    lemma_next_sift(k, p as int);
                    if sifted(k, p as int) && k % (p as int) == 0 && p < k {
                        lemma_sifted_multiple(k, p as int);
                    }
                    if p * p <= k {
                        assert(p < k) by (nonlinear_arith)
                            requires
                                p * p <= k,
                                p >= 2,
                        ;
                    }
                }
            }
        } else {
            proof {
                assert(!sifted(p as int, p as int));
                assert forall|k: int| 2 <= k <= limit implies (#[trigger] marks@[k] <==> sifted(
                    k,
                    p + 1,
                )) by {
                    lemma_next_sift(k, p as int);
                    if k % (p as int) == 0 && p < k {
                        lemma_multiple_of_composite(k, p as int);
                    }
                }
            }
        }
        p = p + 1;
    }
    let mut primes: Vec<u32> = Vec::new();
    let mut n: u32 = 2;
    while n <= limit
        invariant
            2 <= n <= limit + 1,
            limit < u32::MAX,
            marks@.len() == limit + 1,
            p >= 2,
            p * p > limit,
            forall|k: int| 2 <= k <= limit ==> (#[trigger] marks@[k] <==> sifted(k, p as int)),
            forall|i: int| 0 <= i < primes@.len() ==> is_prime(#[trigger] primes@[i] as int),
            forall|i: int| 0 <= i < primes@.len() ==> #[trigger] primes@[i] < n,
            forall|i: int, j: int| 0 <= i < j < primes@.len() ==> primes@[i] < primes@[j],
            forall|k: int| 0 <= k < n && is_prime(k) ==> primes@.contains(k as u32),
        decreases limit + 1 - n,
    {
        let ghost before = primes@;
        if marks[n as usize] {
            proof {
                assert(p * p > n) by (nonlinear_arith)
                    requires
                        p * p > limit,
                        n <= limit,
                ;
                lemma_sifted_is_prime(n as int, p as int);
            }
            primes.push(n);
            proof {
                assert(primes@[before.len() as int] == n);
                assert forall|k: int| 0 <= k < n + 1 && is_prime(k) implies primes@.contains(
                    k as u32,
                ) by {
                    if k < n {
                        let at = choose|at: int| 0 <= at < before.len() && before[at] == k as u32;
                        assert(primes@[at] == k as u32);
                    }
                }
            }
        } else {
            proof {
                assert(!sifted(n as int, p as int));
                assert(!is_prime(n as int));
            }
        }
        n = n + 1;
    }
    primes
}

/// Strikes the multiples of `p` from `p * p` up to `limit`.
fn strike_multiples(marks: &mut Vec<bool>, p: u64, limit: u32)
    requires
        2 <= p < 0x1_0000,
        p * p <= limit,
        old(marks)@.len() == limit + 1,
    ensures
        final(marks)@.len() == limit + 1,
        forall|k: int|
            0 <= k <= limit ==> (#[trigger] final(marks)@[k] <==> old(marks)@[k] && !(k % (p as int)
                == 0 && p * p <= k)),
{
    assert(p * p <= 0xFFFF * 0xFFFF) by (nonlinear_arith)
        requires
            p < 0x1_0000,
    ;
    let mut i: u64 = p * p;
    let ghost mut c: int = p as int;
    while i <= limit as u64
        invariant
            2 <= p < 0x1_0000,
            marks@.len() == limit + 1 == old(marks)@.len(),
            i == c * p,
            c >= p,
            p * p <= i <= limit + p,
            forall|k: int|
                0 <= k <= limit ==> (#[trigger] marks@[k] <==> old(marks)@[k] && !(k % (p as int)
                    == 0 && p * p <= k < i)),
        decreases limit + p - i,
    {
        let ghost before = marks@;
        marks.set(i as usize, false);
        proof {
            lemma_product_divisible(c, p as int);
            assert((c + 1) * p == c * p + p) by (nonlinear_arith);
            assert forall|k: int| 0 <= k <= limit implies (#[trigger] marks@[k] <==> old(
                marks,
            )@[k] && !(k % (p as int) == 0 && p * p <= k < i + p)) by {
                if k != i {
                    assert(marks@[k] == before[k]);
                    if k % (p as int) == 0 && i < k < i + p {
                        // No multiple of p lies strictly between two
                        // neighbouring multiples.
                        lemma_fundamental_div_mod(k, p as int);
                        let q = k / (p as int);
                        assert(false) by (nonlinear_arith)
                            requires
                                k == p * q,
                                i == c * p,
                                i < k < i + p,
                                p > 0,
                        ;
                    }
                }
            }
            c = c + 1;
        }
        i = i + p;
    }
}

} // verus!
