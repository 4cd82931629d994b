//! Integer square roots and the odd-only sieve of Eratosthenes.
use vstd::arithmetic::div_mod::{
    lemma_fundamental_div_mod,
    lemma_mod_multiples_basic,
    lemma_mod_multiples_vanish,
    lemma_small_mod,
};
use vstd::prelude::*;

verus! {

// ---------------------------------------------------------------------------
// Mathematical model
// ---------------------------------------------------------------------------

/// `p` is prime: at least 2 and without a divisor strictly between 1 and `p`.
pub open spec fn is_prime(p: nat) -> bool {
    &&& p >= 2
    &&& forall|d: nat| 2 <= d < p ==> #[trigger] (p % d) != 0
}

/// All primes `p <= n`, in increasing order.
pub open spec fn primes_upto(n: nat) -> Seq<nat>
    decreases n,
{
    if n == 0 {
        Seq::empty()
    } else if is_prime(n) {
        primes_upto((n - 1) as nat).push(n)
    } else {
        primes_upto((n - 1) as nat)
    }
}

/// The entries of a vector of machine integers, read as natural numbers.
pub open spec fn as_nats(s: Seq<usize>) -> Seq<nat> {
    s.map_values(|x: usize| x as nat)
}

/// `r` is the integer square root of `n`: the largest `r` with `r * r <= n`.
pub open spec fn is_isqrt(n: nat, r: nat) -> bool {
    &&& r * r <= n
    &&& n < (r + 1) * (r + 1)
}

/// The list that the sieve returns for the limit `n`: the primes up to `n`,
/// except for the two smallest limits, which give `[1]` and `[2]`.
pub open spec fn sieve_result(n: nat) -> Seq<nat> {
    if n == 0 {
        seq![1nat]
    } else if n == 1 {
        seq![2nat]
    } else {
        primes_upto(n)
    }
}

// ---------------------------------------------------------------------------
// Laws of the model
// ---------------------------------------------------------------------------

/// `primes_upto(n)` holds exactly the primes that do not exceed `n`, in strictly
/// increasing order.
pub proof fn lemma_primes_upto_characterization(n: nat)
    ensures
        forall|k: int| 0 <= k < primes_upto(n).len() ==> is_prime(#[trigger] primes_upto(n)[k]) && primes_upto(n)[k] <= n,
        forall|p: nat| is_prime(p) && p <= n ==> #[trigger] primes_upto(n).contains(p),
        forall|k: int, l: int| 0 <= k < l < primes_upto(n).len() ==> #[trigger] primes_upto(n)[k] < #[trigger] primes_upto(n)[l],
    decreases n,
{
    if n > 0 {
        let m = (n - 1) as nat;
        lemma_primes_upto_characterization(m);
        let prev = primes_upto(m);
        if is_prime(n) {
            let cur = prev.push(n);
            assert(primes_upto(n) == cur);
            assert forall|p: nat| is_prime(p) && p <= n implies #[trigger] cur.contains(p) by {
                if p == n {
                    assert(cur[prev.len() as int] == p);
                } else {
                    assert(prev.contains(p));
                    let k = choose|k: int| 0 <= k < prev.len() && prev[k] == p;
                    assert(cur[k] == p);
                }
            }
        } else {
            assert forall|p: nat| is_prime(p) && p <= n implies #[trigger] primes_upto(n).contains(p) by {
                assert(p != n);
            }
        }
    }
}

/// The primes up to an even number `2k + 2` with `k >= 1` are those up to `2k + 1`.
proof fn lemma_primes_upto_even_step(k: nat)
    requires
        k >= 1,
    ensures
        primes_upto(2 * k + 2) == primes_upto(2 * k + 1),
{
    let n = 2 * k + 2;
    assert(n % 2 == 0);
    assert(!is_prime(n));
}

/// A number `m >= 2` with a divisor strictly between 1 and `m` has a divisor
/// `e >= 2` with `e * e <= m`.
proof fn lemma_small_divisor(m: nat, d: nat)
    requires
        2 <= d < m,
        m % d == 0,
    ensures
        exists|e: nat| 2 <= e && e * e <= m && #[trigger] (m % e) == 0,
{
    lemma_fundamental_div_mod(m as int, d as int);
    let q = m / d;
    assert(m == d * q);
    if d * d <= m {
        assert(2 <= d && d * d <= m && m % d == 0);
    } else {
        assert(q >= 2) by (nonlinear_arith)
            requires
                m == d * q,
                d < m,
                d >= 2,
        {
        }
        assert(q * q <= m) by (nonlinear_arith)
            requires
                m == d * q,
                d * d > m,
                q >= 2,
                d >= 2,
        {
        }
        assert(m == q * d) by (nonlinear_arith)
            requires
                m == d * q,
        {
        }
        lemma_mod_multiples_basic(d as int, q as int);
        assert(m % q == 0);
        assert(2 <= q && q * q <= m && m % q == 0);
    }
}

/// Every divisor of an odd number is odd.
proof fn lemma_divisor_of_odd(m: nat, e: nat)
    requires
        m % 2 == 1,
        e > 0,
        m % e == 0,
    ensures
        e % 2 == 1,
{
    if e % 2 == 0 {
        lemma_fundamental_div_mod(m as int, e as int);
        lemma_fundamental_div_mod(e as int, 2);
        let q = m / e;
        let a = e / 2;
        assert(m == (a * q) * 2) by (nonlinear_arith)
            requires
                m == e * q,
                e == 2 * a,
        {
        }
        lemma_mod_multiples_basic((a * q) as int, 2);
    }
}

/// For an odd `p`, `p` divides `2 * x` only when it divides `x`.
proof fn lemma_odd_divides_double(x: nat, p: nat)
    requires
        p % 2 == 1,
    ensures
        (2 * x) % p == 0 <==> x % p == 0,
{
    lemma_fundamental_div_mod(x as int, p as int);
    let q = x / p;
    let r = x % p;
    assert(2 * x == p * (2 * q) + 2 * r) by (nonlinear_arith)
        requires
            x == p * q + r,
    {
    }
    lemma_mod_multiples_vanish((2 * q) as int, (2 * r) as int, p as int);
    assert((2 * x) % p == (2 * r) % p);
    if 2 * r < p {
        lemma_small_mod((2 * r) as nat, p);
    } else {
        lemma_mod_multiples_vanish(1, (2 * r - p) as int, p as int);
        lemma_small_mod((2 * r - p) as nat, p);
        assert((2 * r) % p == 2 * r - p);
    }
}

/// The sieve's index `j` stands for the odd number `2j + 1`. The marks made for the
/// odd number `p = 2i + 1`, at the indices `i(p + 1), i(p + 1) + p, ...`, are exactly
/// those of the odd multiples of `p` from `p * p` on.
proof fn lemma_marks_are_multiples(j: nat, i: nat)
    requires
        i >= 1,
    ensures
        ({
            let p = 2 * i + 1;
            let start = i * (p + 1);
            (j >= start && (j - start) % (p as int) == 0) <==> (p * p <= 2 * j + 1 && (2 * j + 1) % p == 0)
        }),
{
    let p = 2 * i + 1;
    let start = i * (p + 1);
    assert(p * p == 2 * start + 1) by (nonlinear_arith)
        requires
            p == 2 * i + 1,
            start == i * (p + 1),
    {
    }
    if j >= start {
        let x = (j - start) as nat;
        assert(2 * j + 1 == p * p + 2 * x);
        lemma_mod_multiples_vanish(p as int, (2 * x) as int, p as int);
        assert((2 * j + 1) % p == (2 * x) % p);
        lemma_odd_divides_double(x, p);
    }
}

/// `m` has an odd divisor `d` with `3 <= d <= b` and `d * d <= m`.
pub open spec fn odd_factor(m: nat, d: nat, b: nat) -> bool {
    &&& 3 <= d <= b
    &&& d % 2 == 1
    &&& d * d <= m
    &&& m % d == 0
}

pub open spec fn has_small_odd_factor(m: nat, b: nat) -> bool {
    exists|d: nat| #[trigger] odd_factor(m, d, b)
}

/// An odd `m >= 3` is composite exactly when it has an odd factor `d` with
/// `d * d <= m`; such a factor is at most `b` when `b` covers every odd number
/// whose square does not exceed `bound >= m`.
proof fn lemma_odd_composite(m: nat, b: nat, r: nat, bound: nat)
    requires
        m >= 3,
        m % 2 == 1,
        m <= bound,
        is_isqrt(bound, r),
        b % 2 == 1,
        r <= b + 1,
    ensures
        has_small_odd_factor(m, b) <==> !is_prime(m),
{
    if has_small_odd_factor(m, b) {
        let d = choose|d: nat| #[trigger] odd_factor(m, d, b);
        assert(d < m) by (nonlinear_arith)
            requires
                d >= 3,
                d * d <= m,
        {
        }
        assert(m % d == 0);
    }
    if !is_prime(m) {
        let d = choose|d: nat| 2 <= d < m && #[trigger] (m % d) == 0;
        assert(2 <= d < m && m % d == 0);
        lemma_small_divisor(m, d);
        let e = choose|e: nat| 2 <= e && e * e <= m && #[trigger] (m % e) == 0;
        lemma_divisor_of_odd(m, e);
        assert(e <= r) by (nonlinear_arith)
            requires
                e * e <= m,
                m <= bound,
                bound < (r + 1) * (r + 1),
        {
        }
        assert(odd_factor(m, e, b));
    }
}

/// Adding the divisor to a multiple gives the next multiple, and nothing in between
/// is a multiple.
proof fn lemma_next_multiple(x: nat, p: nat)
    requires
        p > 0,
        x % p == 0,
    ensures
        (x + p) % p == 0,
        forall|t: nat| 0 < t < p ==> #[trigger] ((x + t) % p) != 0,
{
    lemma_fundamental_div_mod(x as int, p as int);
    let q = x / p;
    assert(x == p * q);
    lemma_mod_multiples_vanish(q as int, p as int, p as int);
    lemma_mod_multiples_basic(1, p as int);
    assert forall|t: nat| 0 < t < p implies #[trigger] ((x + t) % p) != 0 by {
        lemma_mod_multiples_vanish(q as int, t as int, p as int);
        lemma_small_mod(t, p);
    }
}

/// Divisibility is transitive.
proof fn lemma_divides_transitive(d: nat, p: nat, m: nat)
    requires
        d > 0,
        p > 0,
        p % d == 0,
        m % p == 0,
    ensures
        m % d == 0,
{
    lemma_fundamental_div_mod(p as int, d as int);
    lemma_fundamental_div_mod(m as int, p as int);
    let a = p / d;
    let b = m / p;
    assert(m == (a * b) * d) by (nonlinear_arith)
        requires
            p == d * a,
            m == p * b,
    {
    }
    lemma_mod_multiples_basic((a * b) as int, d as int);
}

/// Extending the sieve bound from `2i - 1` to `2i + 1` adds the odd number
/// `p = 2i + 1` as a possible factor.
proof fn lemma_bound_step(m: nat, i: nat)
    requires
        i >= 1,
    ensures
        has_small_odd_factor(m, 2 * i + 1) <==> (has_small_odd_factor(m, (2 * i - 1) as nat) || ((2 * i + 1) * (2 * i + 1) <= m && m % (2 * i + 1) == 0)),
{
    let p = 2 * i + 1;
    let b = (2 * i - 1) as nat;
    if has_small_odd_factor(m, p) {
        let d = choose|d: nat| #[trigger] odd_factor(m, d, p);
        if d <= b {
            assert(odd_factor(m, d, b));
        } else {
            assert(d == p);
        }
    }
    if has_small_odd_factor(m, b) {
        let d = choose|d: nat| #[trigger] odd_factor(m, d, b);
        assert(odd_factor(m, d, p));
    }
    if p * p <= m && m % p == 0 {
        assert(odd_factor(m, p, p));
    }
}

/// When `p = 2i + 1` itself has a small odd factor, every multiple of `p` has one
/// below `p`, so `p` adds nothing to the sieve.
proof fn lemma_composite_adds_nothing(m: nat, i: nat)
    requires
        i >= 1,
        has_small_odd_factor(2 * i + 1, (2 * i - 1) as nat),
    ensures
        has_small_odd_factor(m, 2 * i + 1) <==> has_small_odd_factor(m, (2 * i - 1) as nat),
{
    let p = 2 * i + 1;
    let b = (2 * i - 1) as nat;
    lemma_bound_step(m, i);
    if p * p <= m && m % p == 0 {
        let d = choose|d: nat| #[trigger] odd_factor(p, d, b);
        lemma_divides_transitive(d, p, m);
        assert(d * d <= m) by (nonlinear_arith)
            requires
                d * d <= p,
                p * p <= m,
                p >= 1,
        {
        }
        assert(odd_factor(m, d, b));
    }
}

// ---------------------------------------------------------------------------
// Executable functions

// ---------------------------------------------------------------------------

/// The integer square root of `n`, found by binary search.
pub fn sqrt_binary_search(n: usize) -> (r: usize)
    ensures
        is_isqrt(n as nat, r as nat),
{
    let mut low: usize = 0;
    let mut high: usize = n;
    assert(n < (n + 1) * (n + 1)) by (nonlinear_arith);
    while low <= high
        invariant
            low <= high + 1,
            high <= n,
            low == 0 || (low - 1) * (low - 1) <= n,
            n < (high + 1) * (high + 1),
        decreases high + 1 - low,
    {
        let mid = low + (high - low) / 2;
        match mid.checked_mul(mid) {
            Some(square) => {
                if square == n {
                    assert(n < (mid + 1) * (mid + 1)) by (nonlinear_arith)
                        requires
                            mid * mid == n,
                    {
                    }
                    return mid;
                } else if square < n {
                    assert(mid < n) by (nonlinear_arith)
                        requires
                            mid * mid < n,
                    {
                    }
                    low = mid + 1;
                } else {
                    assert(mid >= 1) by (nonlinear_arith)
                        requires
                            mid * mid > n,
                    {
                    }
                    high = mid - 1;
                }
            },
            None => {
                assert(mid >= 1) by (nonlinear_arith)
                    requires
                        mid * mid > usize::MAX,
                {
                }
                high = mid - 1;
            },
        }
    }
    low - 1
}

/// The odd-only sieve of Eratosthenes. For `number_of_primes >= 2` it returns the
/// primes up to `number_of_primes` in increasing order; the limits 0 and 1 give
/// `[1]` and `[2]`.
pub fn optimized_sieve_of_eratosthenes(number_of_primes: usize) -> (primes: Vec<usize>)
    ensures
        as_nats(primes@) == sieve_result(number_of_primes as nat),
{
    if number_of_primes == 0 {
        let v = vec![1];
        assert(as_nats(v@) =~= seq![1nat]);
        return v;
    }
    if number_of_primes == 1 {
        let v = vec![2];
        assert(as_nats(v@) =~= seq![2nat]);
        return v;
    }
    let n = number_of_primes;
    let mut primes: Vec<usize> = vec![2];
    let sieve_limit = (n - 1) / 2;
    let root = sqrt_binary_search(n);
    assert(root >= 1) by (nonlinear_arith)
        requires
            n >= 2,
            n < (root + 1) * (root + 1),
    {
    }
    assert(root <= n) by (nonlinear_arith)
        requires
            root * root <= n,
            root >= 1,
    {
    }
    let cross_limit = (root - 1) / 2;
    let mut sieve: Vec<bool> = vec![false; sieve_limit + 1];
    assert forall|j: int| 0 <= j <= sieve_limit implies #[trigger] sieve@[j] == false by {
        assert(cloned(false, sieve@[j]));
    }

    // Cross off the odd multiples of each odd number that is still unmarked.
    let mut i: usize = 1;
    while i <= cross_limit
        invariant
            n >= 2,
            sieve_limit == (n - 1) / 2,
            is_isqrt(n as nat, root as nat),
            1 <= root <= n,
            cross_limit == (root - 1) / 2,
            1 <= i <= cross_limit + 1,
            sieve@.len() == sieve_limit + 1,
            forall|j: int|
                0 <= j <= sieve_limit ==> (#[trigger] sieve@[j] <==> has_small_odd_factor(
                    (2 * j + 1) as nat,
                    (2 * i - 1) as nat,
                )),
        decreases cross_limit + 1 - i,
    {
        let prime = 2 * i + 1;
        assert(prime * prime <= n && 2 * prime <= n + 1 && i * (prime + 1) <= n) by (nonlinear_arith)
            requires
                prime == 2 * i + 1,
                i <= cross_limit,
                cross_limit == (root - 1) / 2,
                root * root <= n,
        {
        }
        if !sieve[i] {
            let start = i * (prime + 1);
            assert(2 * start + 1 == prime * prime) by (nonlinear_arith)
                requires
                    prime == 2 * i + 1,
                    start == i * (prime + 1),
            {
            }
            let ghost before = sieve@;
            let mut j = start;
            proof {
                lemma_small_mod(0, prime as nat);
            }
            while j <= sieve_limit
                invariant
                    n >= 2,
                    sieve_limit == (n - 1) / 2,
                    2 * prime <= n + 1,
                    prime >= 3,
                    sieve@.len() == sieve_limit + 1,
                    before.len() == sieve_limit + 1,
                    start <= j <= sieve_limit + prime,
                    (j - start) % (prime as int) == 0,
                    forall|jj: int|
                        0 <= jj <= sieve_limit ==> (#[trigger] sieve@[jj] <==> (before[jj] || (
                        start <= jj < j && (jj - start) % (prime as int) == 0))),
                decreases sieve_limit + prime - j,
            {
                let ghost prev = sieve@;
                let ghost old_j = j;
                proof {
                    lemma_next_multiple((j - start) as nat, prime as nat);
                }
                sieve.set(j, true);
                j = j + prime;
                proof {
                    assert forall|jj: int| 0 <= jj <= sieve_limit implies (#[trigger] sieve@[jj]
                        <==> (before[jj] || (start <= jj < j && (jj - start) % (prime as int)
                        == 0))) by {
                        if old_j < jj < j {
                            let t = (jj - old_j) as nat;
                            assert((((old_j - start) as nat) + t) % (prime as nat) != 0);
                        }
                        if jj != old_j {
                            assert(sieve@[jj] == prev[jj]);
                        }
                    }
                }
            }
            proof {
                assert forall|jj: int| 0 <= jj <= sieve_limit implies (#[trigger] sieve@[jj]
                    <==> has_small_odd_factor((2 * jj + 1) as nat, (2 * i + 1) as nat)) by {
                    lemma_marks_are_multiples(jj as nat, i as nat);
                    lemma_bound_step((2 * jj + 1) as nat, i as nat);
                }
            }
        } else {
            proof {
                assert(has_small_odd_factor((2 * i + 1) as nat, (2 * i - 1) as nat));
                assert forall|jj: int| 0 <= jj <= sieve_limit implies (#[trigger] sieve@[jj]
                    <==> has_small_odd_factor((2 * jj + 1) as nat, (2 * i + 1) as nat)) by {
                    lemma_composite_adds_nothing((2 * jj + 1) as nat, i as nat);
                }
            }
        }
        i = i + 1;
    }

    // Collect the unmarked odd numbers.
    let ghost b = (2 * cross_limit + 1) as nat;
    proof {
        reveal_with_fuel(primes_upto, 3);
        assert(is_prime(2));
        assert(as_nats(primes@) =~= primes_upto(2));
    }
    let mut k: usize = 1;
    while k <= sieve_limit
        invariant
            n >= 2,
            sieve_limit == (n - 1) / 2,
            is_isqrt(n as nat, root as nat),
            cross_limit == (root - 1) / 2,
            b == 2 * cross_limit + 1,
            1 <= k <= sieve_limit + 1,
            sieve@.len() == sieve_limit + 1,
            forall|j: int|
                0 <= j <= sieve_limit ==> (#[trigger] sieve@[j] <==> has_small_odd_factor(
                    (2 * j + 1) as nat,
                    b,
                )),
            as_nats(primes@) == primes_upto((2 * k) as nat),
        decreases sieve_limit + 1 - k,
    {
        let m = 2 * k + 1;
        proof {
            lemma_odd_composite(m as nat, b, root as nat, n as nat);
            lemma_primes_upto_even_step(k as nat);
            assert(primes_upto(m as nat) == if is_prime(m as nat) {
                primes_upto((2 * k) as nat).push(m as nat)
            } else {
                primes_upto((2 * k) as nat)
            });
        }
        if !sieve[k] {
            let ghost old_primes = primes@;
            primes.push(m);
            assert(as_nats(primes@) =~= as_nats(old_primes).push(m as nat));
        }
        k = k + 1;
    }
    proof {
        if n % 2 == 1 {
            lemma_primes_upto_even_step(sieve_limit as nat);
        }
    }
    primes
}

} // verus!
