//! The non-interactive proofs: NI-PoE, that `u^x == w`, and NI-PoKE2, of
//! knowledge of a (possibly negative) `x` with `u^x == w`, both made
//! non-interactive by hashing the statement into the challenges.

use vstd::prelude::*;
use crate::bignum::{
    Natural, Integer, be_bytes, be_value, mpow, spow, is_unit, append_bytes, canonical_bytes,
    nat_modpow, nat_eq, int_div_mod_floor,
};
use crate::hash::{lemma_first_prime_at_least_two, blake2b, blake2b_of, hash_prime, hash_prime_spec, hash_group, hash_group_spec};
use crate::group::{lemma_mpow_distributes, lemma_spow_spow, lemma_spow_add, lemma_spow_of_pow, lemma_spow_distributes};
use crate::math::{lemma_unit_pow, modpow_uint_int, mul_mod, lemma_mpow_mpow, lemma_mpow_add};

verus! {

/// Appends the minimal big-endian encoding of `v` to `buf`.
pub fn push_encoding(buf: &mut Vec<u8>, v: &Natural)
    ensures
        final(buf)@ == old(buf)@ + be_bytes(v@),
{
    let b = canonical_bytes(v);
    append_bytes(buf, b.as_slice());
}

/// The prime challenge of NI-PoE for the statement `u^x == w`.
pub open spec fn poe_challenge(x: nat, u: nat, w: nat) -> Option<nat> {
    hash_prime_spec(be_bytes(x) + be_bytes(u) + be_bytes(w))
}

/// The NI-PoE proof for `u^x == w` modulo `n`: `u^(x div l)` for the challenge `l`.
pub open spec fn poe_proof(x: nat, u: nat, w: nat, n: nat) -> Option<nat> {
    match poe_challenge(x, u, w) {
        Some(l) => Some(mpow(u, x / l, n)),
        None => None,
    }
}

/// Whether NI-PoE accepts `q` for `u^x == w`: `q^l * u^(x mod l) == w` modulo `n`.
pub open spec fn poe_accepts(x: nat, u: nat, w: nat, q: nat, n: nat) -> bool {
    match poe_challenge(x, u, w) {
        Some(l) => (mpow(q, l, n) * mpow(u, x % l, n)) % n == w,
        None => false,
    }
}

/// NI-PoE is complete: for `w = u^x mod n`, the proof that `ni_poe_prove`
/// makes is accepted by `ni_poe_verify`.
pub proof fn lemma_poe_round_trip(x: nat, u: nat, n: nat)
    requires
        n > 0,
    ensures
        poe_proof(x, u, mpow(u, x, n), n) matches Some(q) ==> poe_accepts(
            x,
            u,
            mpow(u, x, n),
            q,
            n,
        ),
{
    let w = mpow(u, x, n);
    if let Some(l) = poe_challenge(x, u, w) {
        lemma_first_prime_at_least_two(be_bytes(x) + be_bytes(u) + be_bytes(w), 0,
            crate::hash::PRIME_SEARCH_LIMIT as nat);
        lemma_mpow_mpow(u, x / l, l, n);
        lemma_mpow_add(u, (x / l) * l, x % l, n);
        vstd::arithmetic::div_mod::lemma_fundamental_div_mod(x as int, l as int);
        assert((x / l) * l == l * (x / l)) by (nonlinear_arith);
    }
}

/// The byte string `bin(a) || bin(b) || bin(c)`.
fn encode3(a: &Natural, b: &Natural, c: &Natural) -> (r: Vec<u8>)
    ensures
        r@ == be_bytes(a@) + be_bytes(b@) + be_bytes(c@),
{
    let mut buf: Vec<u8> = Vec::new();
    push_encoding(&mut buf, a);
    push_encoding(&mut buf, b);
    push_encoding(&mut buf, c);
    assert(buf@ =~= be_bytes(a@) + be_bytes(b@) + be_bytes(c@));
    buf
}

/// Proves `u^x == w` modulo `n`. `None` only where the prime search of the
/// challenge ran out.
pub fn ni_poe_prove(x: &Natural, u: &Natural, w: &Natural, n: &Natural) -> (r: Option<Natural>)
    requires
        n@ > 0,
    ensures
        r is Some <==> poe_proof(x@, u@, w@, n@) is Some,
        r matches Some(q) ==> poe_proof(x@, u@, w@, n@) == Some(q@),
{
    let input = encode3(x, u, w);
    match hash_prime(input.as_slice()) {
        None => None,
        Some(l) => {
            let (q, _) = crate::bignum::nat_div_rem(x, &l);
            Some(nat_modpow(u, &q, n))
        },
    }
}

/// Checks an NI-PoE proof `q` of `u^x == w` modulo `n`.
pub fn ni_poe_verify(x: &Natural, u: &Natural, w: &Natural, q: &Natural, n: &Natural) -> (r: bool)
    requires
        n@ > 0,
    ensures
        r == poe_accepts(x@, u@, w@, q@, n@),
{
    let input = encode3(x, u, w);
    match hash_prime(input.as_slice()) {
        None => false,
        Some(l) => {
            let (_, rem) = crate::bignum::nat_div_rem(x, &l);
            let lhs = mul_mod(&nat_modpow(q, &l, n), &nat_modpow(u, &rem, n), n);
            nat_eq(&lhs, w)
        },
    }
}

/// The group element `g` of NI-PoKE2, hashed from `u` and `w`.
pub open spec fn poke2_g(u: nat, w: nat, n: nat) -> nat {
    hash_group_spec(be_bytes(u) + be_bytes(w), n)
}

/// The prime challenge `l` of NI-PoKE2, which binds `z`.
pub open spec fn poke2_l(u: nat, w: nat, z: nat) -> Option<nat> {
    hash_prime_spec(be_bytes(u) + be_bytes(w) + be_bytes(z))
}

/// The challenge `alpha` of NI-PoKE2.
pub open spec fn poke2_alpha(u: nat, w: nat, z: nat, l: nat) -> nat {
    be_value(blake2b_of(be_bytes(u) + be_bytes(w) + be_bytes(z) + be_bytes(l)))
}

/// The base `u * g^alpha mod n` of NI-PoKE2.
pub open spec fn poke2_base(u: nat, w: nat, z: nat, l: nat, n: nat) -> nat {
    (u * mpow(poke2_g(u, w, n), poke2_alpha(u, w, z, l), n)) % n
}

/// The NI-PoKE2 proof `(z, Q, r)` of knowledge of `x` with `u^x == w` modulo `n`:
/// `z = g^x`, `r = x mod l` and `Q = (u g^alpha)^(x div l)`. `None` where a
/// negative power is asked of a non-invertible base, or the prime search ran out.
pub open spec fn poke2_proof(x: int, u: nat, w: nat, n: nat) -> Option<(nat, nat, int)> {
    let g = poke2_g(u, w, n);
    if x < 0 && !is_unit(g, n) {
        None
    } else {
        let z = spow(g, x, n);
        match poke2_l(u, w, z) {
            None => None,
            Some(l) => {
                let base = poke2_base(u, w, z, l, n);
                let q = x / (l as int);
                if q < 0 && !is_unit(base, n) {
                    None
                } else {
                    Some((z, spow(base, q, n), x % (l as int)))
                }
            },
        }
    }
}

/// Whether NI-PoKE2 accepts `(z, q, r)` for `(u, w)`: `0 <= r < l` and
/// `q^l * (u g^alpha)^r == w * z^alpha` modulo `n`.
pub open spec fn poke2_accepts(u: nat, w: nat, z: nat, q: nat, r: int, n: nat) -> bool {
    match poke2_l(u, w, z) {
        None => false,
        Some(l) => {
            let base = poke2_base(u, w, z, l, n);
            &&& 0 <= r < l
            &&& (mpow(q, l, n) * mpow(base, r as nat, n)) % n == (w * mpow(
                z,
                poke2_alpha(u, w, z, l),
                n,
            )) % n
        },
    }
}

/// NI-PoKE2 is complete: for a unit `u` and `w = u^x mod n`, the proof that
/// `ni_poke2_prove` makes is accepted by `ni_poke2_verify`.
pub proof fn lemma_poke2_round_trip(x: int, u: nat, n: nat)
    requires
        n > 1,
        is_unit(u, n),
    ensures
        poke2_proof(x, u, spow(u, x, n), n) matches Some(p) ==> poke2_accepts(
            u,
            spow(u, x, n),
            p.0,
            p.1,
            p.2,
            n,
        ),
{
    let w = spow(u, x, n);
    let g = poke2_g(u, w, n);
    if let Some(p) = poke2_proof(x, u, w, n) {
        let z = spow(g, x, n);
        let l = poke2_l(u, w, z).unwrap();
        lemma_first_prime_at_least_two(be_bytes(u) + be_bytes(w) + be_bytes(z), 0,
            crate::hash::PRIME_SEARCH_LIMIT as nat);
        let alpha = poke2_alpha(u, w, z, l);
        let big_g = mpow(g, alpha, n);
        let base = poke2_base(u, w, z, l, n);
        let q = x / (l as int);
        let r = x % (l as int);
        vstd::arithmetic::div_mod::lemma_fundamental_div_mod(x, l as int);
        assert(q * l + r == x) by (nonlinear_arith) requires x == l * q + r;
        if x >= 0 {
            assert(q >= 0) by (nonlinear_arith) requires x >= 0, l >= 2, r < l, q * l + r == x;
            lemma_mpow_mpow(base, q as nat, l, n);
            lemma_mpow_add(base, (q * l) as nat, r as nat, n);
            lemma_mpow_mpow(g, x as nat, alpha, n);
            lemma_mpow_mpow(g, alpha, x as nat, n);
            assert(x * alpha == alpha * x) by (nonlinear_arith);
            lemma_mpow_distributes(u, big_g, x as nat, n);
        } else {
            assert(q < 0) by (nonlinear_arith) requires x < 0, l >= 2, r >= 0, q * l + r == x;
            lemma_unit_pow(g, alpha, n);
            lemma_spow_spow(base, q, l, n);
            lemma_spow_add(base, q * l, r, n);
            lemma_spow_spow(g, x, alpha, n);
            lemma_spow_of_pow(g, alpha, x, n);
            assert(x * alpha == alpha * x) by (nonlinear_arith);
            lemma_spow_distributes(u, big_g, x, n);
        }
    }
}

/// The byte string `bin(u) || bin(w)`.
fn encode2(a: &Natural, b: &Natural) -> (r: Vec<u8>)
    ensures
        r@ == be_bytes(a@) + be_bytes(b@),
{
    let mut buf: Vec<u8> = Vec::new();
    push_encoding(&mut buf, a);
    push_encoding(&mut buf, b);
    assert(buf@ =~= be_bytes(a@) + be_bytes(b@));
    buf
}

/// The challenges `(g, l, alpha)` of NI-PoKE2 for `(u, w, z)`.
fn poke2_challenges(u: &Natural, w: &Natural, z: &Natural, n: &Natural) -> (r: Option<
    (Natural, Natural, Natural),
>)
    requires
        n@ > 0,
    ensures
        r is Some <==> poke2_l(u@, w@, z@) is Some,
        r matches Some(c) ==> {
            &&& c.0@ == poke2_g(u@, w@, n@)
            &&& poke2_l(u@, w@, z@) == Some(c.1@)
            &&& c.1@ >= 2
            &&& c.2@ == poke2_alpha(u@, w@, z@, c.1@)
        },
{
    let uw = encode2(u, w);
    let g = hash_group(uw.as_slice(), n);
    let uwz = encode3(u, w, z);
    match hash_prime(uwz.as_slice()) {
        None => None,
        Some(l) => {
            let mut buf = uwz;
            push_encoding(&mut buf, &l);
            let alpha = Natural::from_bytes_be(blake2b(buf.as_slice()).as_slice());
            Some((g, l, alpha))
        },
    }
}

/// Proves knowledge of `x` with `u^x == w` modulo `n`.
pub fn ni_poke2_prove(x: &Integer, u: &Natural, w: &Natural, n: &Natural) -> (r: Option<
    (Natural, Natural, Integer),
>)
    requires
        n@ > 1,
    ensures
        r is Some <==> poke2_proof(x@, u@, w@, n@) is Some,
        r matches Some(p) ==> poke2_proof(x@, u@, w@, n@) == Some((p.0@, p.1@, p.2@)),
{
    let uw = encode2(u, w);
    let g = hash_group(uw.as_slice(), n);
    let z = match modpow_uint_int(&g, x, n) {
        None => return None,
        Some(z) => z,
    };
    let (g2, l, alpha) = match poke2_challenges(u, w, &z, n) {
        None => return None,
        Some(c) => c,
    };
    let (q, rem) = int_div_mod_floor(x, &l);
    proof {
        vstd::arithmetic::div_mod::lemma_fundamental_div_mod_converse(
            x@,
            l@ as int,
            q@,
            rem@ as int,
        );
    }
    let base = mul_mod(u, &nat_modpow(&g2, &alpha, n), n);
    match modpow_uint_int(&base, &q, n) {
        None => None,
        Some(big_q) => Some((z, big_q, Integer::from_natural(rem))),
    }
}

/// Checks an NI-PoKE2 proof `(z, q, r)` for `(u, w)` modulo `n`.
pub fn ni_poke2_verify(u: &Natural, w: &Natural, pi: &(Natural, Natural, Integer), n: &Natural) -> (r:
    bool)
    requires
        n@ > 0,
    ensures
        r == poke2_accepts(u@, w@, pi.0@, pi.1@, pi.2@, n@),
{
    let (z, big_q, rem) = pi;
    let (g, l, alpha) = match poke2_challenges(u, w, z, n) {
        None => return false,
        Some(c) => c,
    };
    if rem.is_negative() {
        return false;
    }
    let r_mag = rem.magnitude();
    let (_, r_red) = crate::bignum::nat_div_rem(r_mag, &l);
    if !nat_eq(&r_red, r_mag) {
        proof {
            if r_mag@ < l@ {
                vstd::arithmetic::div_mod::lemma_small_mod(r_mag@, l@);
            }
        }
        return false;
    }
    let base = mul_mod(u, &nat_modpow(&g, &alpha, n), n);
    let lhs = mul_mod(&nat_modpow(big_q, &l, n), &nat_modpow(&base, r_mag, n), n);
    let rhs = mul_mod(w, &nat_modpow(z, &alpha, n), n);
    nat_eq(&lhs, &rhs)
}

} // verus!
