//! Prime-number utilities: a bit-packed, segmented Sieve of Eratosthenes that
//! counts the primes of a range, with trial-division helpers beside it.

pub mod args;
pub mod bits;
pub mod bitvector;
pub mod counter;
pub mod cpu;
pub mod numbers;
pub mod primality;
pub mod segment;
pub mod sieve;
pub mod tiling;

pub use crate::counter::count_primes;
pub use crate::numbers::{gcd, is_prime, lcm, split_into_factors};
pub use crate::segment::segment_sieve;
pub use crate::sieve::simple_sieve;
