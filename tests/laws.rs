use accumulators::accumulator::Accumulator;
use accumulators::bignum::{Integer, Natural};
use accumulators::hash::{hash_group, hash_prime};
use accumulators::math::{modpow_uint_int, mul_mod, product, root_factor, shamir_trick};
use accumulators::proofs::{ni_poe_prove, ni_poe_verify, ni_poke2_prove, ni_poke2_verify};
use num_bigint_dig::BigUint;

fn n_of(v: u64) -> Natural {
    Natural::from_bytes_be(&v.to_be_bytes())
}

fn u_of(x: &Natural) -> u64 {
    let b = x.to_bytes_be();
    assert!(b.len() <= 8);
    b.iter().fold(0u64, |acc, d| acc * 256 + *d as u64)
}

fn powmod(b: u64, e: u64, n: u64) -> u64 {
    let r = BigUint::from(b).modpow(&BigUint::from(e), &BigUint::from(n));
    u_of(&Natural::from_bytes_be(&r.to_bytes_be()))
}

/// `n = p q` for the primes 1000003 and 999983.
const N: u64 = 1000003 * 999983;

#[test]
fn natural_encoding_is_canonical() {
    let x = Natural::from_bytes_be(&[0, 0, 1, 2]);
    assert_eq!(x.to_bytes_be(), vec![1, 2]);
    assert_eq!(Natural::zero().to_bytes_be(), vec![0]);
    assert_eq!(Natural::one().to_bytes_be(), vec![1]);
    assert!(Natural::from_bytes_be(&[0, 0]).is_zero());
}

#[test]
fn product_and_mul_mod() {
    let xs = vec![n_of(3), n_of(5), n_of(7)];
    assert_eq!(u_of(&product(&xs)), 105);
    assert_eq!(u_of(&product(&[])), 1);
    assert_eq!(u_of(&mul_mod(&n_of(12), &n_of(11), &n_of(7))), 132 % 7);
}

#[test]
fn signed_modpow() {
    let seven = n_of(7);
    let minus_one = Integer::new(true, n_of(1));
    assert_eq!(u_of(&modpow_uint_int(&n_of(3), &minus_one, &seven).unwrap()), 5);
    let minus_two = Integer::new(true, n_of(2));
    assert_eq!(u_of(&modpow_uint_int(&n_of(3), &minus_two, &seven).unwrap()), 4);
    let ten = Integer::from_natural(n_of(10));
    assert_eq!(u_of(&modpow_uint_int(&n_of(2), &ten, &n_of(1000)).unwrap()), 24);
    // 2 has no inverse modulo 4
    assert!(modpow_uint_int(&n_of(2), &minus_one, &n_of(4)).is_none());
    // a negative zero needs no inverse
    let minus_zero = Integer::new(true, Natural::zero());
    assert_eq!(u_of(&modpow_uint_int(&n_of(2), &minus_zero, &n_of(4)).unwrap()), 1);
}

#[test]
fn shamir_law() {
    let n = 43 * 67;
    let (x, y) = (3u64, 5u64);
    let w_x = powmod(49, y, n);
    let w_y = powmod(49, x, n);
    let v = shamir_trick(&n_of(w_x), &n_of(w_y), &n_of(x), &n_of(y), &n_of(n)).unwrap();
    assert_eq!(powmod(u_of(&v), x * y, n), powmod(49, x * y, n));
    assert_eq!(u_of(&v), 49);
}

#[test]
fn shamir_needs_coprime_exponents() {
    let n = 43 * 67;
    let r = shamir_trick(&n_of(49), &n_of(49), &n_of(3), &n_of(6), &n_of(n));
    assert!(r.is_none());
}

#[test]
fn root_factor_leaves_one_out() {
    let primes = vec![n_of(3), n_of(5), n_of(7), n_of(11)];
    let ws = root_factor(&n_of(2), &primes, &n_of(N));
    assert_eq!(ws.len(), 4);
    assert_eq!(u_of(&ws[0]), powmod(2, 5 * 7 * 11, N));
    assert_eq!(u_of(&ws[1]), powmod(2, 3 * 7 * 11, N));
    assert_eq!(u_of(&ws[2]), powmod(2, 3 * 5 * 11, N));
    assert_eq!(u_of(&ws[3]), powmod(2, 3 * 5 * 7, N));
    assert_eq!(u_of(&root_factor(&n_of(2), &primes[..1], &n_of(N))[0]), 2);
}

#[test]
fn poe_round_trip() {
    let (x, u) = (12345u64, 7u64);
    let w = powmod(u, x, N);
    let q = ni_poe_prove(&n_of(x), &n_of(u), &n_of(w), &n_of(N)).unwrap();
    assert!(ni_poe_verify(&n_of(x), &n_of(u), &n_of(w), &q, &n_of(N)));
    assert!(!ni_poe_verify(&n_of(x), &n_of(u), &n_of(w + 1), &q, &n_of(N)));
}

#[test]
fn poke2_round_trip() {
    let u = n_of(5);
    for (neg, mag) in [(false, 1234u64), (true, 4321u64)] {
        let x = Integer::new(neg, n_of(mag));
        let w = modpow_uint_int(&u, &x, &n_of(N)).unwrap();
        let pi = ni_poke2_prove(&x, &u, &w, &n_of(N)).unwrap();
        assert!(ni_poke2_verify(&u, &w, &pi, &n_of(N)));
        assert!(!ni_poke2_verify(&u, &n_of(u_of(&w) + 1), &pi, &n_of(N)));
    }
}

#[test]
fn hash_is_deterministic() {
    let a = hash_prime(b"abc").unwrap();
    let b = hash_prime(b"abc").unwrap();
    assert_eq!(a.to_bytes_be(), b.to_bytes_be());
    assert!(a.to_bytes_be().len() <= 16);
    let g = hash_group(b"abc", &n_of(1000));
    assert!(u_of(&g) < 1000);
    assert_eq!(u_of(&hash_group(b"abc", &n_of(1))), 0);
}

fn small_acc() -> Accumulator {
    let mut acc = Accumulator::setup(n_of(N), n_of(4), 64);
    for x in [3u64, 5, 7] {
        acc.add(&n_of(x));
    }
    acc
}

#[test]
fn invariant_after_mutations() {
    let mut acc = small_acc();
    assert_eq!(u_of(acc.state()), powmod(4, 105, N));
    acc.del(&n_of(5)).unwrap();
    assert_eq!(u_of(acc.state()), powmod(4, 21, N));
    let root_old = acc.state().clone();
    let pi = acc.batch_add(&[n_of(11), n_of(13)]).unwrap();
    assert_eq!(u_of(acc.state()), powmod(4, 21 * 143, N));
    assert!(acc.ver_batch_add(&pi, &root_old, &[n_of(11), n_of(13)]));
    assert!(!acc.ver_batch_add(&pi, &root_old, &[n_of(11)]));
}

#[test]
fn membership_witness_verifies() {
    let acc = small_acc();
    let w = acc.mem_wit_create(&n_of(5));
    assert_eq!(u_of(&w), powmod(4, 21, N));
    assert!(acc.ver_mem(&w, &n_of(5)));
    assert!(!acc.ver_mem(&w, &n_of(7)));
}

#[test]
fn del_of_non_member_fails() {
    let mut acc = small_acc();
    let before = acc.state().clone();
    assert!(acc.del(&n_of(11)).is_none());
    assert_eq!(acc.state().to_bytes_be(), before.to_bytes_be());
}

#[test]
fn del_w_mem_rejects_bad_witness() {
    let mut acc = small_acc();
    let before = acc.state().clone();
    assert!(acc.del_w_mem(&n_of(12345), &n_of(5)).is_none());
    assert_eq!(acc.state().to_bytes_be(), before.to_bytes_be());
    let w = acc.mem_wit_create(&n_of(5));
    acc.del_w_mem(&w, &n_of(5)).unwrap();
    assert_eq!(u_of(acc.state()), powmod(4, 21, N));
}

#[test]
fn batch_del_all_or_nothing() {
    let mut acc = small_acc();
    assert!(acc.batch_del(&[]).is_none());
    let w = acc.mem_wit_create(&n_of(3));
    let before = acc.state().clone();
    // the same prime twice: the exponents are not coprime
    assert!(acc.batch_del(&[(n_of(3), w.clone()), (n_of(3), w.clone())]).is_none());
    assert_eq!(acc.state().to_bytes_be(), before.to_bytes_be());
    let ws = acc.create_all_mem_wit(&[n_of(3), n_of(5), n_of(7)]);
    let pi = acc
        .batch_del(&[(n_of(3), ws[0].clone()), (n_of(5), ws[1].clone())])
        .unwrap();
    assert_eq!(u_of(acc.state()), powmod(4, 7, N));
    assert!(acc.ver_batch_del(&pi, &before, &[n_of(3), n_of(5)]));
}

#[test]
fn non_membership_witness() {
    let acc = small_acc();
    let w = acc.non_mem_wit_create(&n_of(11));
    assert!(acc.ver_non_mem(&w, &n_of(11)));
    let pi = acc.non_mem_wit_create_star(&n_of(11)).unwrap();
    assert!(acc.ver_non_mem_star(&n_of(11), &pi));
    assert!(!acc.ver_non_mem_star(&n_of(13), &pi));
}

#[test]
fn aggregation_needs_coprime() {
    let acc = small_acc();
    let w3 = acc.mem_wit_create(&n_of(3));
    let w5 = acc.mem_wit_create(&n_of(5));
    assert!(acc.agg_mem_wit(&w3, &w3, &n_of(3), &n_of(3)).is_none());
    let (w, pi) = acc.agg_mem_wit(&w3, &w5, &n_of(3), &n_of(5)).unwrap();
    assert_eq!(u_of(&w), powmod(4, 7, N));
    assert!(acc.ver_agg_mem_wit(&w, &pi, &n_of(3), &n_of(5)));
    assert!(!acc.ver_mem_x(acc.state(), &w3, &n_of(3), &n_of(3)));
    let m = acc.mem_wit_x(acc.state(), &w3, &w5, &n_of(3), &n_of(5));
    assert_eq!(u_of(&m), (powmod(4, 35, N) as u128 * powmod(4, 21, N) as u128 % N as u128) as u64);
}

#[test]
fn clone_keeps_state() {
    let acc = small_acc();
    let other = acc.clone();
    assert_eq!(other.state().to_bytes_be(), acc.state().to_bytes_be());
    assert_eq!(other.modulus().to_bytes_be(), n_of(N).to_bytes_be());
    assert_eq!(other.generator().to_bytes_be(), vec![4]);
}
