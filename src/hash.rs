//! Hashing into primes and into the group, over the BLAKE2b digest.

use vstd::prelude::*;
use blake2::{Blake2b512, Digest};
use num_bigint_dig::BigUint;
use crate::bignum::{be_bytes, be_value, Natural, canonical_bytes, nat_div_rem};

verus! {

/// The BLAKE2b-512 digest of a byte string.
pub uninterp spec fn blake2b_of(s: Seq<u8>) -> Seq<u8>;

/// The verdict of the probabilistic primality test (twenty rounds) on `v`.
pub uninterp spec fn probable_prime(v: nat) -> bool;

/// How many candidates `hash_prime` examines before it gives up.
pub const PRIME_SEARCH_LIMIT: u64 = u64::MAX;

/// Relies on `Blake2b512::digest`: 64 bytes that depend on the input alone.
#[verifier::external_body]
pub(crate) fn blake2b(input: &[u8]) -> (r: Vec<u8>)
    ensures
        r@ == blake2b_of(input@),
        r@.len() == 64,
{
    Blake2b512::digest(input).to_vec()
}

/// Relies on `num_bigint_dig::prime::probably_prime` with twenty rounds: it is
/// deterministic, and false on zero and one.
#[verifier::external_body]
fn probably_prime(x: &Natural) -> (r: bool)
    ensures
        r == probable_prime(x@),
        r ==> x@ >= 2,
{
    num_bigint_dig::prime::probably_prime(&BigUint::from_bytes_be(&x.bytes), 20)
}

/// The `k`-th candidate of the prime search on `input`: the first 16 bytes of
/// the digest, and after that of the digest of the previous candidate's bytes.
pub open spec fn prime_candidate(input: Seq<u8>, k: nat) -> nat
    decreases k,
{
    if k == 0 {
        be_value(blake2b_of(input).subrange(0, 16))
    } else {
        be_value(blake2b_of(be_bytes(prime_candidate(input, (k - 1) as nat))).subrange(0, 16))
    }
}

/// The first probable prime among the `left` candidates from the `k`-th on.
pub open spec fn first_prime(input: Seq<u8>, k: nat, left: nat) -> Option<nat>
    decreases left,
{
    if left == 0 {
        None
    } else if probable_prime(prime_candidate(input, k)) && prime_candidate(input, k) >= 2 {
        Some(prime_candidate(input, k))
    } else {
        first_prime(input, k + 1, (left - 1) as nat)
    }
}

/// Whatever the prime search finds is at least two.
pub proof fn lemma_first_prime_at_least_two(input: Seq<u8>, k: nat, left: nat)
    ensures
        first_prime(input, k, left) matches Some(l) ==> l >= 2,
    decreases left,
{
    if left > 0 {
        lemma_first_prime_at_least_two(input, k + 1, (left - 1) as nat);
    }
}

/// What `hash_prime` returns on `input`.
pub open spec fn hash_prime_spec(input: Seq<u8>) -> Option<nat> {
    first_prime(input, 0, PRIME_SEARCH_LIMIT as nat)
}

/// What `hash_group` returns on `input` and modulus `n`.
pub open spec fn hash_group_spec(input: Seq<u8>, n: nat) -> nat {
    be_value(blake2b_of(input)) % n
}

/// Hashes `input` to a 128-bit probable prime: the first candidate of the
/// digest chain that passes the primality test.
pub fn hash_prime(input: &[u8]) -> (r: Option<Natural>)
    ensures
        r matches Some(y) ==> hash_prime_spec(input@) == Some(y@) && y@ >= 2,
        r is None ==> hash_prime_spec(input@) is None,
{
    let d = blake2b(input);
    let mut y = Natural::from_prefix(&d, 16);
    let mut left: u64 = PRIME_SEARCH_LIMIT;
    let ghost mut k: nat = 0;
    while left > 0
        invariant
            y@ == prime_candidate(input@, k),
            hash_prime_spec(input@) == first_prime(input@, k, left as nat),
        decreases left,
    {
        if probably_prime(&y) {
            return Some(y);
        }
        let d = blake2b(canonical_bytes(&y).as_slice());
        y = Natural::from_prefix(&d, 16);
        left = left - 1;
        proof {
            k = k + 1;
        }
    }
    None
}

/// Hashes `input` into the group: the digest, read big-endian, modulo `n`.
pub fn hash_group(input: &[u8], n: &Natural) -> (r: Natural)
    requires
        n@ > 0,
    ensures
        r@ == hash_group_spec(input@, n@),
{
    let d = blake2b(input);
    let y = Natural::from_bytes_be(d.as_slice());
    nat_div_rem(&y, n).1
}

} // verus!
