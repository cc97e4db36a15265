use prime_prefix::generate::{
    bit_length, first_n_primes, initial_bound, primes_from_table,
};
use prime_prefix::sieve::prime_table;

fn is_prime_by_division(p: u64) -> bool {
    if p < 2 {
        return false;
    }
    let mut d: u64 = 2;
    while d * d <= p {
        if p % d == 0 {
            return false;
        }
        d += 1;
    }
    true
}

#[test]
fn length_matches_request() {
    for n in [0usize, 1, 2, 5, 6, 7, 10, 50, 100, 1000, 4321] {
        assert_eq!(first_n_primes(n).len(), n);
    }
}

#[test]
fn ascending_and_prime() {
    let primes = first_n_primes(2000);
    for w in primes.windows(2) {
        assert!(w[0] < w[1]);
    }
    for &p in &primes {
        assert!(is_prime_by_division(p));
    }
}

#[test]
fn no_prime_skipped() {
    let primes = first_n_primes(500);
    let last = *primes.last().unwrap();
    let all: Vec<u64> = (0..=last).filter(|&p| is_prime_by_division(p)).collect();
    assert_eq!(primes, all);
}

#[test]
fn one_more_extends() {
    for n in [1usize, 4, 5, 6, 9, 99, 100, 777] {
        let a = first_n_primes(n);
        let b = first_n_primes(n + 1);
        assert_eq!(b.len(), n + 1);
        assert_eq!(&b[..n], &a[..]);
    }
}

#[test]
fn fixed_bound_boundary() {
    assert_eq!(first_n_primes(5), vec![2, 3, 5, 7, 11]);
    assert_eq!(first_n_primes(6), vec![2, 3, 5, 7, 11, 13]);
}

#[test]
fn ten_thousandth_prime() {
    let primes = first_n_primes(10000);
    assert_eq!(primes.len(), 10000);
    assert_eq!(primes[9999], 104729);
}

#[test]
fn bit_length_values() {
    assert_eq!(bit_length(0), 0);
    assert_eq!(bit_length(1), 1);
    assert_eq!(bit_length(2), 2);
    assert_eq!(bit_length(7), 3);
    assert_eq!(bit_length(8), 4);
    assert_eq!(bit_length(100), 7);
    assert_eq!(bit_length(usize::MAX), usize::BITS as usize);
}

#[test]
fn initial_bound_values() {
    assert_eq!(initial_bound(0), 100);
    assert_eq!(initial_bound(1), 100);
    assert_eq!(initial_bound(5), 100);
    // 6 has 3 binary digits, 3 has 2: 6 * 5
    assert_eq!(initial_bound(6), 30);
    // 100 has 7 binary digits, 7 has 3: 100 * 10
    assert_eq!(initial_bound(100), 1000);
    assert_eq!(initial_bound(usize::MAX), usize::MAX / 2);
}

#[test]
fn prime_table_small() {
    let t = prime_table(12);
    let expected = vec![
        false, false, true, true, false, true, false, true, false, false, false, true, false,
    ];
    assert_eq!(t, expected);
    assert_eq!(prime_table(0), vec![false]);
    assert_eq!(prime_table(1), vec![false, false]);
}

#[test]
fn prime_table_squares_struck() {
    let t = prime_table(200);
    for k in 0..=200u64 {
        assert_eq!(t[k as usize], is_prime_by_division(k), "entry {}", k);
    }
    assert!(!t[121]);
    assert!(!t[169]);
    assert!(t[199]);
}

#[test]
fn table_with_too_few_primes() {
    let t = prime_table(20);
    assert_eq!(primes_from_table(&t, 100), vec![2, 3, 5, 7, 11, 13, 17, 19]);
    assert_eq!(primes_from_table(&t, 3), vec![2, 3, 5]);
    assert_eq!(primes_from_table(&t, 0), Vec::<u64>::new());
}
