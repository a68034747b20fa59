use accumulators::bignum::Natural;
use accumulators::hash::{hash_group, hash_prime};
use num_bigint_dig::prime::probably_prime;
use num_bigint_dig::{BigUint, RandBigInt};
use rand::{thread_rng, Rng};

fn to_big(x: &Natural) -> BigUint {
    BigUint::from_bytes_be(&x.to_bytes_be())
}

#[test]
fn test_hash_prime() {
    let mut rng = thread_rng();

    for i in 1..10 {
        let mut val = vec![0u8; i * 32];
        rng.fill(&mut val[..]);

        let h = to_big(&hash_prime(&val).unwrap());
        assert!(probably_prime(&h, 20));
    }
}

#[test]
fn test_hash_group() {
    let mut rng = thread_rng();

    for i in 1..10 {
        let mut val = vec![0u8; i * 32];
        rng.fill(&mut val[..]);
        let n = rng.gen_biguint(1024);

        let h = to_big(&hash_group(&val, &Natural::from_bytes_be(&n.to_bytes_be())));
        assert!(h <= n);
    }
}
