//! A verified library for discovering primes incrementally.
//!
//! Two engines grow an ordered cache of primes: `TrialDivision` tests odd
//! candidates against the primes found so far, while `Sieve` advances a
//! wheel over candidates coprime to 30 together with a queue of pending
//! composites. Both engines prove the same contract — the cache is at all
//! times the ascending run of primes with none skipped — and every
//! higher-level operation (iteration, search, primality testing,
//! factorization) is written once against that contract in `PrimeSet`.
//!
//! One-shot helpers (`factors`, `factors_uniq`, `is_prime`, `totient`)
//! work without a cache.

pub mod arith;
pub mod factorization;
pub mod prime_seq;
pub mod prime_set;
pub mod sieve;
pub mod trial_division;
pub mod wheel;

pub use arith::is_prime_spec;
pub use factorization::{factors, factors_uniq, is_prime, totient};
pub use prime_seq::complete_prime_seq;
pub use prime_set::{PrimeSet, PrimeSetBasics, PrimeSetIter};
pub use sieve::Sieve;
pub use trial_division::TrialDivision;
