use accumulators::accumulator::Accumulator;
use accumulators::bignum::{Integer, Natural};
use accumulators::math::modpow_uint_int;
use num_bigint_dig::traits::ExtendedGcd;
use num_bigint_dig::{BigInt, BigUint, RandBigInt, RandPrime, Sign};
use num_integer::Integer as _;
use num_traits::{FromPrimitive, One};
use rand::SeedableRng;
use rand_chacha::ChaChaRng;

fn to_nat(x: &BigUint) -> Natural {
    Natural::from_bytes_be(&x.to_bytes_be())
}

fn to_big(x: &Natural) -> BigUint {
    BigUint::from_bytes_be(&x.to_bytes_be())
}

fn to_integer(x: &BigInt) -> Integer {
    let (s, m) = x.to_bytes_be();
    Integer::new(s == Sign::Minus, Natural::from_bytes_be(&m))
}

/// A group of unknown order: `n = p q` for two fresh primes, `g` a square.
fn setup(rng: &mut ChaChaRng, int_size_bits: usize) -> Accumulator {
    loop {
        let p = rng.gen_prime(int_size_bits / 2);
        let q = rng.gen_prime(int_size_bits / 2);
        if p == q {
            continue;
        }
        let n = &p * &q;
        let h = rng.gen_biguint_below(&n);
        let g = (&h * &h) % &n;
        if g > BigUint::one() && g.gcd(&n).is_one() {
            return Accumulator::setup(to_nat(&n), to_nat(&g), int_size_bits);
        }
    }
}

fn primes(rng: &mut ChaChaRng, count: usize, bits: usize) -> Vec<Natural> {
    (0..count).map(|_| to_nat(&rng.gen_prime(bits))).collect()
}

#[test]
fn test_static() {
    let rng = &mut ChaChaRng::from_seed([0u8; 32]);

    for _ in 0..15 {
        let int_size_bits = 256;
        let mut acc = setup(rng, int_size_bits);
        let xs = primes(rng, 5, int_size_bits);

        for x in &xs {
            acc.add(x);
        }

        for x in &xs {
            let w = acc.mem_wit_create(x);
            assert!(acc.ver_mem(&w, x));
        }
    }
}

#[test]
fn test_dynamic() {
    let rng = &mut ChaChaRng::from_seed([0u8; 32]);

    for _ in 0..12 {
        let int_size_bits = 256;
        let mut acc = setup(rng, int_size_bits);
        let xs = primes(rng, 5, int_size_bits);

        for x in &xs {
            acc.add(x);
        }

        let ws = xs
            .iter()
            .map(|x| {
                let w = acc.mem_wit_create(x);
                assert!(acc.ver_mem(&w, x));
                w
            })
            .collect::<Vec<_>>();

        for (x, w) in xs.iter().zip(ws.iter()) {
            acc.del(x).unwrap();
            assert!(!acc.ver_mem(w, x));
        }
    }
}

#[test]
fn test_universal() {
    let rng = &mut ChaChaRng::from_seed([0u8; 32]);

    for _ in 0..10 {
        let int_size_bits = 256;
        let mut acc = setup(rng, int_size_bits);
        let xs = primes(rng, 5, int_size_bits);

        for x in &xs {
            acc.add(x);
        }

        for _ in 0..5 {
            let y = to_nat(&rng.gen_prime(int_size_bits));
            let w = acc.non_mem_wit_create(&y);
            assert!(acc.ver_non_mem(&w, &y));
        }
    }
}

#[test]
fn test_math_non_mempership() {
    let rng = &mut ChaChaRng::from_seed([0u8; 32]);

    let int_size_bits = 32;

    let x = rng.gen_prime(int_size_bits);
    let s1 = rng.gen_prime(int_size_bits);
    let s2 = rng.gen_prime(int_size_bits);

    let n = BigUint::from_u32(43 * 67).unwrap();
    let g = BigUint::from_u32(49).unwrap();

    let mut s_star = BigUint::one();
    s_star *= &s1;
    s_star *= &s2;

    let root = g.modpow(&s_star, &n);

    let (_, a, b) = ExtendedGcd::extended_gcd(&x, &s_star);

    let u = BigInt::from_biguint(Sign::Plus, x.clone());
    let v = BigInt::from_biguint(Sign::Plus, s_star);
    let lhs = a.clone() * &u;
    let rhs = b.clone() * &v;
    assert_eq!(lhs + &rhs, BigInt::one());

    // d = g^a mod n
    let d = to_big(&modpow_uint_int(&to_nat(&g), &to_integer(&a), &to_nat(&n)).unwrap());

    // A^b
    let a_b = to_big(&modpow_uint_int(&to_nat(&root), &to_integer(&b), &to_nat(&n)).unwrap());

    // A^b == g^{set* * b}
    let res = to_big(&modpow_uint_int(&to_nat(&g), &to_integer(&(&v * &b)), &to_nat(&n)).unwrap());
    assert_eq!(a_b, res);

    // d^x == g^{a * x}
    let d_x = d.modpow(&x, &n);
    let res = to_big(&modpow_uint_int(&to_nat(&g), &to_integer(&(&a * &u)), &to_nat(&n)).unwrap());
    assert_eq!(d_x, res);

    // d^x A^b == g
    let lhs = (&d_x * &a_b) % &n;
    assert_eq!(lhs, g);
}

fn test_batch_add_size(size: usize) {
    let rng = &mut ChaChaRng::from_seed([0u8; 32]);

    let int_size_bits = 256;
    let mut acc = setup(rng, int_size_bits);

    // regular add
    let x0 = to_nat(&rng.gen_prime(int_size_bits));
    acc.add(&x0);

    // batch add
    let root = acc.state().clone();
    let xs = primes(rng, size, int_size_bits);
    let w = acc.batch_add(&xs).unwrap();

    assert!(acc.ver_batch_add(&w, &root, &xs), "ver_batch_add failed");

    // delete with member
    let x = &xs[2];
    let w = acc.mem_wit_create(x);
    assert!(acc.ver_mem(&w, x), "failed to verify valid witness");

    acc.del_w_mem(&w, x).unwrap();
    assert!(!acc.ver_mem(&w, x), "witness verified, even though it was deleted");

    // create all members witness: the state holds xs without x, and x0
    let mut set = vec![x0.clone(), xs[0].clone(), xs[1].clone()];
    set.extend(xs.iter().skip(3).cloned());

    let ws = acc.create_all_mem_wit(&set);

    for (w, x) in ws.iter().zip(set.iter()) {
        assert!(acc.ver_mem(w, x));
    }

    // batch delete
    let root = acc.state().clone();
    let pairs = set
        .iter()
        .cloned()
        .zip(ws.iter().cloned())
        .take(3)
        .collect::<Vec<_>>();
    let w = acc.batch_del(&pairs[..]).unwrap();

    assert!(acc.ver_batch_del(&w, &root, &set[..3]), "ver_batch_del failed");
}

#[test]
fn test_batch_add_small() {
    for i in 4..14 {
        test_batch_add_size(i)
    }
}

#[test]
fn test_batch_add_large() {
    let size = 40;
    let rng = &mut ChaChaRng::from_seed([0u8; 32]);
    let int_size_bits = 256;
    let mut acc = setup(rng, int_size_bits);

    let x0 = to_nat(&rng.gen_prime(int_size_bits));
    acc.add(&x0);

    let root = acc.state().clone();
    let xs = primes(rng, size, int_size_bits);
    let w = acc.batch_add(&xs).unwrap();
    assert!(acc.ver_batch_add(&w, &root, &xs), "ver_batch_add failed");

    let root = acc.state().clone();
    let xs = primes(rng, size, int_size_bits);
    let w = acc.batch_add(&xs).unwrap();
    assert!(acc.ver_batch_add(&w, &root, &xs), "ver_batch_add failed");
}

#[test]
fn test_aggregation() {
    let rng = &mut ChaChaRng::from_seed([0u8; 32]);

    for _ in 0..10 {
        let int_size_bits = 256;
        let mut acc = setup(rng, int_size_bits);
        let xs = primes(rng, 5, int_size_bits);

        for x in &xs {
            acc.add(x);
        }

        // AggMemWit
        {
            let x = &xs[0];
            let y = &xs[1];
            let w_x = acc.mem_wit_create(x);
            let w_y = acc.mem_wit_create(y);

            let (w_xy, p_wxy) = acc.agg_mem_wit(&w_x, &w_y, x, y).unwrap();

            assert!(acc.ver_agg_mem_wit(&w_xy, &p_wxy, x, y), "invalid agg_mem_wit proof");
        }

        // MemWitCreate*
        {
            let pis = (0..5)
                .map(|i| acc.mem_wit_create_star(&xs[i]).unwrap())
                .collect::<Vec<_>>();
            for (pi, x) in pis.iter().zip(&xs) {
                assert!(acc.ver_mem_star(x, pi), "invalid mem_wit_create_star proof");
            }
        }

        // MemWitX
        {
            let mut acc = setup(rng, int_size_bits);
            let mut other = acc.clone();
            let xb = rng.gen_prime(128);
            let yb = rng.gen_prime(128);

            assert!(xb.gcd(&yb).is_one(), "x, y must be coprime");
            let (x, y) = (to_nat(&xb), to_nat(&yb));

            acc.add(&x);
            other.add(&y);

            let w_x = acc.mem_wit_create(&x);
            let w_y = other.mem_wit_create(&y);

            assert!(acc.ver_mem(&w_x, &x));
            assert!(other.ver_mem(&w_y, &y));

            let w_xy = acc.mem_wit_x(other.state(), &w_x, &w_y, &x, &y);
            assert!(acc.ver_mem_x(other.state(), &w_xy, &x, &y), "invalid ver_mem_x witness");
        }
    }
}

#[test]
fn test_aggregation_non_mem_star() {
    let rng = &mut ChaChaRng::from_seed([0u8; 32]);

    for _ in 0..10 {
        let int_size_bits = 256;
        let mut acc = setup(rng, int_size_bits);
        let xs = primes(rng, 5, int_size_bits);

        for x in &xs {
            acc.add(x);
        }

        let x = to_nat(&rng.gen_prime(int_size_bits));
        let pi = acc.non_mem_wit_create_star(&x).unwrap();

        assert!(acc.ver_non_mem_star(&x, &pi), "invalid ver_non_mem_star");
    }
}
