//! An RSA accumulator: a constant-size commitment to a set of primes over a
//! group of unknown order, with membership and non-membership witnesses,
//! batching, aggregation and the Fiat-Shamir proofs they rest on.

pub mod bignum;
pub mod hash;
pub mod math;
pub mod proofs;
pub mod group;
pub mod accumulator;
