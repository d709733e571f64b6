//! The table of the primes below 2^16.

use vstd::prelude::*;

verus! {

/// The primes below this bound are in the table.
pub const PRIME_BOUND: u32 = 65536;

pub open spec fn is_prime(n: int) -> bool {
    n >= 2 && forall|k: int| 2 <= k < n ==> #[trigger] (n % k) != 0
}

/// The primes below `n`, in increasing order.
pub open spec fn primes_below(n: int) -> Seq<u32>
    decreases n,
{
    if n <= 2 {
        Seq::empty()
    } else {
        primes_below(n - 1) + if is_prime(n - 1) {
            seq![(n - 1) as u32]
        } else {
            Seq::empty()
        }
    }
}

/// The table: the primes below 2^16 in increasing order.
pub open spec fn prime_list() -> Seq<u32> {
    primes_below(PRIME_BOUND as int)
}

/// A divisor at least `d` has a cofactor below `d` when `d * d > n`.
proof fn lemma_small_cofactor(n: int, d: int, k: int)
    requires
        2 <= d,
        d * d > n,
        d <= k < n,
        n % k == 0,
    ensures
        2 <= n / k < d,
        n % (n / k) == 0,
{
    let m = n / k;
    vstd::arithmetic::div_mod::lemma_fundamental_div_mod(n, k);
    assert(n == k * m);
    assert(m >= 2) by (nonlinear_arith)
        requires
            n == k * m,
            k < n,
            k >= 2,
    {
        if m <= 1 {
            assert(k * m <= k);
        }
    }
    assert(m < d) by (nonlinear_arith)
        requires
            n == k * m,
            d * d > n,
            k >= d,
            m >= 2,
            d >= 2,
    {
        if m >= d {
            assert(k * m >= d * d);
        }
    }
    assert(n == m * k) by (nonlinear_arith)
        requires
            n == k * m,
    ;
    vstd::arithmetic::div_mod::lemma_mod_multiples_basic(k, m);
}

/// Whether a number below 2^16 is prime, by trial division.
pub fn is_prime_exec(n: u32) -> (r: bool)
    requires
        n < PRIME_BOUND,
    ensures
        r == is_prime(n as int),
{
    if n < 2 {
        return false;
    }
    let mut d: u32 = 2;
    while d <= n / d
        invariant
            2 <= d <= 256,
            2 <= n < PRIME_BOUND,
            forall|k: int| 2 <= k < d ==> #[trigger] ((n as int) % k) != 0,
        decreases 256 - d,
    {
        if n % d == 0 {
            assert(d < n) by {
                vstd::arithmetic::div_mod::lemma_div_is_ordered_by_denominator(n as int, 2, d as int);
                vstd::arithmetic::div_mod::lemma_div_decreases(n as int, 2);
            }
            assert(((n as int) % (d as int)) == 0);
            return false;
        }
        assert(d < 256) by {
            if d >= 256 {
                vstd::arithmetic::div_mod::lemma_div_is_ordered_by_denominator(
                    n as int,
                    256,
                    d as int,
                );
                vstd::arithmetic::div_mod::lemma_div_is_ordered(n as int, 65535, 256);
                assert(65535int / 256 == 255);
            }
        }
        d = d + 1;
    }
    assert(d * d > n) by {
        vstd::arithmetic::div_mod::lemma_fundamental_div_mod(n as int, d as int);
        vstd::arithmetic::div_mod::lemma_mod_bound(n as int, d as int);
        let q = n / d;
        assert(q + 1 <= d);
        assert(d * d >= d * (q + 1)) by (nonlinear_arith)
            requires
                q + 1 <= d,
                d >= 2,
        ;
        assert(d * (q + 1) == d * q + d) by (nonlinear_arith);
    }
    assert forall|k: int| 2 <= k < n implies #[trigger] ((n as int) % k) != 0 by {
        if k >= d && (n as int) % k == 0 {
            lemma_small_cofactor(n as int, d as int, k);
        }
    }
    true
}

/// The table of the primes below 2^16.
pub fn prime_table() -> (r: Vec<u32>)
    ensures
        r@ == prime_list(),
{
    let mut r: Vec<u32> = Vec::new();
    let mut n: u32 = 2;
    while n < PRIME_BOUND
        invariant
            2 <= n <= PRIME_BOUND,
            r@ == primes_below(n as int),
        decreases PRIME_BOUND - n,
    {
        if is_prime_exec(n) {
            r.push(n);
            assert(r@ =~= primes_below(n as int + 1));
        } else {
            assert(r@ =~= primes_below(n as int + 1));
        }
        n = n + 1;
    }
    r
}

/// The table is increasing and holds primes only.
pub proof fn lemma_primes_below(n: int)
    requires
        n <= PRIME_BOUND,
    ensures
        forall|i: int|
            0 <= i < primes_below(n).len() ==> is_prime(#[trigger] primes_below(n)[i] as int)
                && primes_below(n)[i] < n,
        forall|i: int, j: int|
            0 <= i < j < primes_below(n).len() ==> #[trigger] primes_below(n)[i]
                < #[trigger] primes_below(n)[j],
    decreases n,
{
    if n > 2 {
        lemma_primes_below(n - 1);
        let p = primes_below(n - 1);
        let q = primes_below(n);
        if is_prime(n - 1) {
            assert(q =~= p.push((n - 1) as u32));
        } else {
            assert(q =~= p);
        }
        assert forall|i: int| 0 <= i < q.len() implies is_prime(#[trigger] q[i] as int) && q[i]
            < n by {
            if i < p.len() {
                assert(q[i] == p[i]);
            } else {
                assert(is_prime(n - 1));
                assert(q[i] == (n - 1) as u32);
                assert(q[i] as int == n - 1);
            }
        }
        assert forall|i: int, j: int| 0 <= i < j < q.len() implies #[trigger] q[i] < #[trigger] q[j] by {
            if j < p.len() {
                assert(q[i] == p[i] && q[j] == p[j]);
            } else {
                assert(q[i] == p[i]);
                assert(q[j] == (n - 1) as u32);
            }
        }
    }
}

} // verus!
