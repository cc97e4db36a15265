//! The first `n` primes: sieve up to an estimated bound, and double the bound
//! until the sieve holds `n` primes.
use vstd::prelude::*;

use crate::primality::{
    is_prime, lemma_first_primes_prefix, lemma_first_primes_push, lemma_prime_count_monotone,
    lists_first_primes, prime_count,
};
use crate::sieve::{lemma_mul_le_quotient, prime_table, SIEVE_CAP};

verus! {

/// How many primes a request for `n` yields: `n`, unless fewer primes than
/// that lie at or below `SIEVE_CAP`.
pub open spec fn yielded_count(n: nat) -> nat {
    let available = prime_count(SIEVE_CAP as nat + 1);
    if n <= available {
        n
    } else {
        available
    }
}

/// `r` is the answer to a request for `n` primes: the smallest primes, in
/// ascending order, `yielded_count(n)` of them.
pub open spec fn first_primes(n: nat, r: Seq<u64>) -> bool {
    lists_first_primes(r) && r.len() == yielded_count(n)
}

/// Every element of an answer is prime, and the elements strictly ascend.
pub proof fn lemma_first_primes_ascending(n: nat, r: Seq<u64>)
    requires
        first_primes(n, r),
    ensures
        forall|i: int| 0 <= i < r.len() ==> is_prime(#[trigger] r[i] as int),
        forall|i: int, j: int| 0 <= i < j < r.len() ==> #[trigger] r[i] < #[trigger] r[j],
{
    reveal(lists_first_primes);
}

/// Asking for one prime more only extends the answer: the answer for `n` is a
/// prefix of the answer for `n + 1`.
pub proof fn lemma_first_primes_extend(n: nat, a: Seq<u64>, b: Seq<u64>)
    requires
        first_primes(n, a),
        first_primes(n + 1, b),
    ensures
        a.is_prefix_of(b),
{
    lemma_first_primes_prefix(a, b);
}

/// The answer for `n` is determined by `n` alone.
pub proof fn lemma_first_primes_determined(n: nat, a: Seq<u64>, b: Seq<u64>)
    requires
        first_primes(n, a),
        first_primes(n, b),
    ensures
        a == b,
{
    lemma_first_primes_prefix(a, b);
    assert(a =~= b);
}

/// The primes marked in a sieve table, smallest first, at most `n` of them.
pub fn primes_from_table(t: &Vec<bool>, n: usize) -> (r: Vec<u64>)
    requires
        forall|k: int| 0 <= k < t.len() ==> #[trigger] t[k] == is_prime(k),
    ensures
        lists_first_primes(r@),
        r.len() == if n <= prime_count(t.len() as nat) {
            n as nat
        } else {
            prime_count(t.len() as nat)
        },
{
    let mut r: Vec<u64> = Vec::new();
    let mut k: usize = 0;
    assert(lists_first_primes(r@)) by {
        reveal(lists_first_primes);
    }
    while k < t.len() && r.len() < n
        invariant
            k <= t.len(),
            forall|x: int| 0 <= x < t.len() ==> #[trigger] t[x] == is_prime(x),
            r.len() == prime_count(k as nat),
            r.len() <= n,
            lists_first_primes(r@),
            forall|x: int| 0 <= x < r.len() ==> #[trigger] r[x] < k,
            forall|p: int|
                (r.len() == 0 || r[r.len() - 1] < p) && p < k ==> !#[trigger] is_prime(p),
        decreases t.len() - k,
    {
        if t[k] {
            proof {
                lemma_first_primes_push(r@, k as u64);
            }
            r.push(k as u64);
        }
        k += 1;
    }
    proof {
        lemma_prime_count_monotone(k as nat, t.len() as nat);
    }
    r
}

/// The number of binary digits of `x`; none for 0.
pub open spec fn bit_len(x: nat) -> nat
    decreases x,
{
    if x == 0 {
        0
    } else {
        1 + bit_len(x / 2)
    }
}

/// A number has no more binary digits than its value, nor than half of it plus one.
proof fn lemma_bit_len_small(x: nat)
    ensures
        bit_len(x) <= x,
        bit_len(x) <= x / 2 + 1,
    decreases x,
{
    if x > 0 {
        lemma_bit_len_small(x / 2);
    }
}

/// The number of binary digits of `x`.
pub fn bit_length(x: usize) -> (r: usize)
    ensures
        r == bit_len(x as nat),
{
    let mut y: usize = x;
    let mut c: usize = 0;
    proof {
        lemma_bit_len_small(x as nat);
    }
    while y > 0
        invariant
            c + bit_len(y as nat) == bit_len(x as nat),
            bit_len(x as nat) <= x,
        decreases y,
    {
        y = y / 2;
        c += 1;
    }
    c
}

/// The first sieve bound tried for `n` primes: 100 for fewer than six, else
/// `n * (bit_len(n) + bit_len(bit_len(n)))`, a binary stand-in for the
/// estimate `n * (ln n + ln ln n)` of the `n`-th prime; never above
/// `SIEVE_CAP`. Nothing rests on it being large enough: a bound that holds
/// too few primes is doubled.
pub open spec fn first_bound(n: nat) -> nat {
    if n < 6 {
        100
    } else {
        let f = bit_len(n) + bit_len(bit_len(n));
        if n * f <= SIEVE_CAP {
            n * f
        } else {
            SIEVE_CAP as nat
        }
    }
}

/// The first sieve bound tried for `n` primes.
pub fn initial_bound(n: usize) -> (b: usize)
    ensures
        b == first_bound(n as nat),
        1 <= b <= SIEVE_CAP,
{
    if n < 6 {
        return 100;
    }
    let a = bit_length(n);
    let c = bit_length(a);
    proof {
        lemma_bit_len_small(n as nat);
        lemma_bit_len_small(a as nat);
    }
    let f = a + c;
    assert(n * f >= 1) by (nonlinear_arith)
        requires
            n >= 6,
            f >= 1,
    ;
    proof {
        lemma_mul_le_quotient(n as int, f as int, SIEVE_CAP as int);
    }
    if f <= SIEVE_CAP / n {
        n * f
    } else {
        SIEVE_CAP
    }
}

/// The first `n` primes in ascending order. The sieve bound starts at
/// `initial_bound(n)` and is doubled, up to `SIEVE_CAP`, while the sieve
/// holds fewer than `n` primes.
pub fn first_n_primes(n: usize) -> (r: Vec<u64>)
    ensures
        first_primes(n as nat, r@),
        n <= prime_count(SIEVE_CAP as nat + 1) ==> r.len() == n,
{
    if n == 0 {
        let r: Vec<u64> = Vec::new();
        assert(lists_first_primes(r@)) by {
            reveal(lists_first_primes);
        }
        return r;
    }
    let mut limit: usize = initial_bound(n);
    loop
        invariant
            1 <= limit <= SIEVE_CAP,
        decreases SIEVE_CAP - limit,
    {
        let t = prime_table(limit);
        let r = primes_from_table(&t, n);
        if r.len() == n || limit == SIEVE_CAP {
            proof {
                lemma_prime_count_monotone(limit as nat + 1, SIEVE_CAP as nat + 1);
            }
            return r;
        }
        limit = if limit <= SIEVE_CAP / 2 {
            limit * 2
        } else {
            SIEVE_CAP
        };
    }
}

} // verus!
