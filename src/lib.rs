//! The first `n` prime numbers, computed with a sieve of Eratosthenes whose
//! bound grows until it holds enough primes.

pub mod primality;
pub mod sieve;
pub mod generate;
pub mod argument;
