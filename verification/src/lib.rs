//! Exact integer mathematics with machine-checked contracts.
//!
//! The executable functions are in `number_theory` (greatest common
//! divisors, least common multiples, primality, factorizations, divisors,
//! the sieve), `prime_index` (a table of primes that grows on demand),
//! `sequences` (Fibonacci and Lucas numbers), `aggregate` (sums, products
//! and extremes of integer slices), `noise` (a hash of bit patterns) and
//! `lambert_w` (the real branches of the Lambert W function by index).
//!
//! Their contracts are stated over the mathematics in `divisibility`,
//! `primality`, `factorization` and `divisor_lists`, which also hold the
//! theorems that the proofs rest on.

pub mod aggregate;
pub mod divisibility;
pub mod divisor_lists;
pub mod factorization;
pub mod lambert_w;
pub mod noise;
pub mod number_theory;
pub mod primality;
pub mod prime_index;
pub mod sequences;
