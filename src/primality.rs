//! What it means to be prime, to count primes, and to list the first primes.
use vstd::arithmetic::div_mod::{lemma_fundamental_div_mod, lemma_fundamental_div_mod_converse};
use vstd::prelude::*;

verus! {

/// `p` is prime: at least 2, and no divisor strictly between 1 and `p`.
pub open spec fn is_prime(p: int) -> bool {
    &&& p >= 2
    &&& forall|d: int| 2 <= d < p ==> #[trigger] (p % d) != 0
}

/// The number of primes strictly below `m`.
pub open spec fn prime_count(m: nat) -> nat
    decreases m,
{
    if m == 0 {
        0
    } else {
        prime_count((m - 1) as nat) + if is_prime(m - 1) { 1nat } else { 0nat }
    }
}

/// `s` is the ascending list of the smallest `s.len()` primes: it starts at 2,
/// every element is prime, it strictly ascends, and no prime lies between two
/// neighbours.
#[verifier::opaque]
pub open spec fn lists_first_primes(s: Seq<u64>) -> bool {
    &&& s.len() > 0 ==> s[0] == 2
    &&& forall|i: int| 0 <= i < s.len() ==> is_prime(#[trigger] s[i] as int)
    &&& forall|i: int, j: int| 0 <= i < j < s.len() ==> #[trigger] s[i] < #[trigger] s[j]
    &&& forall|i: int, p: int|
        #![trigger s[i], is_prime(p)]
        0 <= i && i + 1 < s.len() && s[i] < p < s[i + 1] ==> !is_prime(p)
}

/// `k` is at least 2 and has no divisor `d` with `2 <= d < i` and `d * d <= k`:
/// what the sieve still holds for `k` once every `d` below `i` has been struck.
pub open spec fn survives(k: int, i: int) -> bool {
    &&& k >= 2
    &&& forall|d: int| 2 <= d < i && d * d <= k ==> #[trigger] (k % d) != 0
}

/// A number that is not prime has a divisor whose square does not exceed it,
/// so below `i * i` surviving every `d < i` is the same as being prime.
pub proof fn lemma_survivor_is_prime(k: int, i: int)
    requires
        0 <= k < i * i,
        i >= 2,
    ensures
        survives(k, i) == is_prime(k),
{
    if is_prime(k) {
        assert forall|d: int| 2 <= d < i && d * d <= k implies #[trigger] (k % d) != 0 by {
            assert(d < k) by (nonlinear_arith)
                requires
                    2 <= d,
                    d * d <= k,
            ;
        }
    }
    if survives(k, i) {
        assert forall|d: int| 2 <= d < k implies #[trigger] (k % d) != 0 by {
            if k % d == 0 {
                lemma_fundamental_div_mod(k, d);
                let e = k / d;
                assert(k == d * e);
                assert(e >= 2) by (nonlinear_arith)
                    requires
                        k == d * e,
                        2 <= d < k,
                ;
                if d <= e {
                    assert(d * d <= k && d < i) by (nonlinear_arith)
                        requires
                            k == d * e,
                            2 <= d <= e,
                            k < i * i,
                            i >= 2,
                    ;
                } else {
                    assert(e * e <= k && e < i) by (nonlinear_arith)
                        requires
                            k == d * e,
                            2 <= e < d,
                            k < i * i,
                            i >= 2,
                    ;
                    lemma_fundamental_div_mod_converse(k, e, d, 0);
                    assert(k % e == 0);
                }
            }
        }
    }
}

/// Striking the multiples of `i` from `i * i` on turns the survivors below `i`
/// into the survivors below `i + 1`.
pub proof fn lemma_survives_step(k: int, i: int)
    requires
        i >= 2,
    ensures
        survives(k, i + 1) == (survives(k, i) && !(i * i <= k && k % i == 0)),
{
    if survives(k, i) && !(i * i <= k && k % i == 0) {
        assert forall|d: int| 2 <= d < i + 1 && d * d <= k implies #[trigger] (k % d) != 0 by {
            if d < i {
            }
        }
    }
}

/// Where `i` has itself been struck, its multiples from `i * i` on have been
/// struck too, by a smaller divisor.
pub proof fn lemma_struck_multiple(k: int, i: int)
    requires
        i >= 2,
        !survives(i, i),
        i * i <= k,
        k % i == 0,
    ensures
        !survives(k, i),
{
    let d = choose|d: int| 2 <= d < i && d * d <= i && #[trigger] (i % d) == 0;
    lemma_fundamental_div_mod(i, d);
    lemma_fundamental_div_mod(k, i);
    let a = k / i;
    let b = i / d;
    assert(k == (a * b) * d) by (nonlinear_arith)
        requires
            k == i * a,
            i == d * b,
    ;
    lemma_fundamental_div_mod_converse(k, d, a * b, 0);
    assert(d * d <= k) by (nonlinear_arith)
        requires
            d * d <= i,
            i * i <= k,
            i >= 2,
    ;
    assert(k % d == 0);
}

/// Counting primes below a larger bound never gives fewer.
pub proof fn lemma_prime_count_monotone(a: nat, b: nat)
    requires
        a <= b,
    ensures
        prime_count(a) <= prime_count(b),
    decreases b,
{
    if a < b {
        lemma_prime_count_monotone(a, (b - 1) as nat);
    }
}

/// A list of first primes grows by the next prime: one above its last element
/// with no prime in between.
pub proof fn lemma_first_primes_push(s: Seq<u64>, q: u64)
    requires
        lists_first_primes(s),
        is_prime(q as int),
        forall|x: int| 0 <= x < s.len() ==> #[trigger] s[x] < q,
        forall|p: int| (s.len() == 0 || s[s.len() - 1] < p) && p < q ==> !#[trigger] is_prime(p),
    ensures
        lists_first_primes(s.push(q)),
{
    reveal(lists_first_primes);
    let r = s.push(q);
    if s.len() == 0 {
        assert(is_prime(2));
        assert(q == 2);
    }
    assert forall|i: int, p: int|
        #![trigger r[i], is_prime(p)]
        0 <= i && i + 1 < r.len() && r[i] < p < r[i + 1] implies !is_prime(p) by {
        if i + 1 < s.len() {
            assert(s[i] == r[i] && s[i + 1] == r[i + 1]);
        }
    }
}

/// Two lists of first primes agree on every position below `k`.
proof fn lemma_first_primes_agree(a: Seq<u64>, b: Seq<u64>, k: int)
    requires
        lists_first_primes(a),
        lists_first_primes(b),
        0 <= k <= a.len(),
        k <= b.len(),
    ensures
        forall|i: int| 0 <= i < k ==> a[i] == b[i],
    decreases k,
{
    reveal(lists_first_primes);
    if k > 0 {
        lemma_first_primes_agree(a, b, k - 1);
        let i = k - 1;
        if i > 0 {
            assert(a[i - 1] == b[i - 1]);
            assert(a[i - 1] < a[i] && b[i - 1] < b[i]);
            assert(is_prime(a[i] as int) && is_prime(b[i] as int));
            if a[i] < b[i] {
                assert(!is_prime(a[i] as int));
            } else if b[i] < a[i] {
                assert(!is_prime(b[i] as int));
            }
        }
    }
}

/// A list of first primes is determined by its length: of two such lists,
/// the shorter is a prefix of the longer.
pub proof fn lemma_first_primes_prefix(a: Seq<u64>, b: Seq<u64>)
    requires
        lists_first_primes(a),
        lists_first_primes(b),
        a.len() <= b.len(),
    ensures
        a.is_prefix_of(b),
{
    lemma_first_primes_agree(a, b, a.len() as int);
    assert(a =~= b.subrange(0, a.len() as int));
}

} // verus!
