//! The sieve of Eratosthenes over `0..=limit`.
use vstd::arithmetic::div_mod::{lemma_fundamental_div_mod, lemma_fundamental_div_mod_converse};
use vstd::prelude::*;

use crate::primality::{
    is_prime, lemma_struck_multiple, lemma_survives_step, lemma_survivor_is_prime, survives,
};

verus! {

/// The largest bound the sieve is run up to; stepping past it by one of its
/// factors still fits in `usize`.
pub const SIEVE_CAP: usize = usize::MAX / 2;

/// For positive `a`, comparing `b` with `c / a` compares `a * b` with `c`.
pub proof fn lemma_mul_le_quotient(a: int, b: int, c: int)
    requires
        a > 0,
        c >= 0,
    ensures
        (b <= c / a) == (a * b <= c),
{
    lemma_fundamental_div_mod(c, a);
    let q = c / a;
    let r = c % a;
    assert((b <= q) == (a * b <= c)) by (nonlinear_arith)
        requires
            c == a * q + r,
            0 <= r < a,
            a > 0,
    ;
}

/// Between two neighbouring multiples of `i` nothing is a multiple of `i`.
proof fn lemma_next_multiple(j: int, i: int, x: int)
    requires
        i > 0,
        j >= 0,
        j % i == 0,
        j <= x <= j + i,
    ensures
        (x % i == 0) == (x == j || x == j + i),
{
    lemma_fundamental_div_mod(j, i);
    let q = j / i;
    assert(j == q * i && j + i == (q + 1) * i) by (nonlinear_arith)
        requires
            j == i * q + 0,
    ;
    if x < j + i {
        lemma_fundamental_div_mod_converse(x, i, q, x - j);
    } else {
        lemma_fundamental_div_mod_converse(x, i, q + 1, 0);
    }
}

/// The table of primes up to `limit`: entry `k` tells whether `k` is prime.
pub fn prime_table(limit: usize) -> (t: Vec<bool>)
    requires
        limit <= SIEVE_CAP,
    ensures
        t.len() == limit + 1,
        forall|k: int| 0 <= k <= limit ==> #[trigger] t[k] == is_prime(k),
{
    let mut t: Vec<bool> = Vec::new();
    let mut k: usize = 0;
    while k <= limit
        invariant
            limit <= SIEVE_CAP,
            k <= limit + 1,
            t.len() == k,
            forall|x: int| 0 <= x < k ==> #[trigger] t[x] == (x >= 2),
        decreases limit + 1 - k,
    {
        t.push(k >= 2);
        k += 1;
    }
    assert forall|x: int| 0 <= x <= limit implies #[trigger] t[x] == survives(x, 2) by {}
    let mut i: usize = 2;
    while i <= limit / i
        invariant
            2 <= i <= limit + 2,
            limit <= SIEVE_CAP,
            t.len() == limit + 1,
            forall|x: int| 0 <= x <= limit ==> #[trigger] t[x] == survives(x, i as int),
        decreases limit + 2 - i,
    {
        proof {
            lemma_mul_le_quotient(i as int, i as int, limit as int);
        }
        assert(i <= limit) by (nonlinear_arith)
            requires
                i * i <= limit,
                i >= 2,
        ;
        if t[i] {
            let mut j: usize = i * i;
            proof {
                lemma_fundamental_div_mod_converse(j as int, i as int, i as int, 0);
            }
            while j <= limit
                invariant
                    2 <= i <= limit,
                    i * i <= j <= limit + i,
                    j % i == 0,
                    limit <= SIEVE_CAP,
                    t.len() == limit + 1,
                    forall|x: int|
                        0 <= x <= limit ==> #[trigger] t[x] == (survives(x, i as int) && !(i * i
                            <= x < j && x % (i as int) == 0)),
                decreases limit + i - j,
            {
                t.set(j, false);
                assert forall|x: int| 0 <= x <= limit implies #[trigger] t[x] == (survives(
                    x,
                    i as int,
                ) && !(i * i <= x < j + i && x % (i as int) == 0)) by {
                    if j <= x <= j + i {
                        lemma_next_multiple(j as int, i as int, x);
                    }
                }
                proof {
                    lemma_next_multiple(j as int, i as int, j + i);
                }
                j = j + i;
            }
            assert forall|x: int| 0 <= x <= limit implies #[trigger] t[x] == survives(
                x,
                i + 1,
            ) by {
                lemma_survives_step(x, i as int);
            }
        } else {
            assert forall|x: int| 0 <= x <= limit implies #[trigger] t[x] == survives(
                x,
                i + 1,
            ) by {
                lemma_survives_step(x, i as int);
                if i * i <= x && x % (i as int) == 0 {
                    lemma_struck_multiple(x, i as int);
                }
            }
        }
        i += 1;
    }
    proof {
        lemma_mul_le_quotient(i as int, i as int, limit as int);
    }
    assert forall|k: int| 0 <= k <= limit implies #[trigger] t[k] == is_prime(k) by {
        lemma_survivor_is_prime(k, i as int);
    }
    t
}

} // verus!
