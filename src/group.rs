//! Exponent laws for signed powers of units modulo `n`.

use vstd::prelude::*;
use vstd::arithmetic::power::{pow, lemma_pow_mod_noop, lemma_pow_distributes, lemma1_pow, lemma_pow0};
use vstd::arithmetic::div_mod::{lemma_mul_mod_noop, lemma_mul_mod_noop_left, lemma_mul_mod_noop_right, lemma_small_mod};
use crate::bignum::{mpow, spow, is_unit, is_inverse, inv_mod};
use crate::math::{lemma_mpow_mpow, lemma_mpow_add, lemma_reduced_inverse};

verus! {

/// A unit's canonical inverse lies in `[0, n)` and is an inverse.
pub proof fn lemma_inv_mod(g: nat, n: nat)
    requires
        n > 1,
        is_unit(g, n),
    ensures
        inv_mod(g, n) < n,
        is_inverse(g as int, inv_mod(g, n) as int, n),
{
    let i = choose|i: int| is_inverse(g as int, i, n);
    lemma_reduced_inverse(g, i, n);
}

/// Multiplication modulo `n` associates.
pub proof fn lemma_mul_mod_assoc(x: int, y: int, z: int, n: int)
    requires
        n > 0,
    ensures
        ((x * y) % n * z) % n == (x * ((y * z) % n)) % n,
{
    lemma_mul_mod_noop_left(x * y, z, n);
    lemma_mul_mod_noop_right(x, y * z, n);
    assert(x * y * z == x * (y * z)) by (nonlinear_arith);
}

/// Powers of inverses cancel: `g^k * h^k == 1` where `g * h == 1`.
pub proof fn lemma_pow_cancel(g: nat, h: nat, k: nat, n: nat)
    requires
        n > 1,
        is_inverse(g as int, h as int, n),
    ensures
        (mpow(g, k, n) * mpow(h, k, n)) % n == 1,
{
    let m = n as int;
    lemma_mul_mod_noop(pow(g as int, k), pow(h as int, k), m);
    lemma_pow_distributes(g as int, h as int, k);
    lemma_pow_mod_noop(g as int * h as int, k, m);
    lemma1_pow(k);
    lemma_small_mod(1, n);
    assert(pow((g as int * h as int) % m, k) == 1);
}

/// `x * 1 mod n` is `x` for `x` below `n`.
proof fn lemma_mul_one_mod(x: nat, n: nat)
    requires
        n > 1,
        x < n,
    ensures
        (x * 1) % n == x,
{
    lemma_small_mod(x, n);
}

/// `g^e1 * g^e2 == g^(e1 + e2)` for signed exponents and a unit `g`.
pub proof fn lemma_spow_add(g: nat, e1: int, e2: int, n: nat)
    requires
        n > 1,
        is_unit(g, n),
    ensures
        (spow(g, e1, n) * spow(g, e2, n)) % n == spow(g, e1 + e2, n),
    decreases 2 - (if e1 >= 0 { 1int } else { 0 }),
{
    let m = n as int;
    lemma_inv_mod(g, n);
    let h = inv_mod(g, n);
    if e1 >= 0 && e2 >= 0 {
        lemma_mpow_add(g, e1 as nat, e2 as nat, n);
    } else if e1 < 0 && e2 < 0 {
        lemma_mpow_add(h, (-e1) as nat, (-e2) as nat, n);
    } else if e1 < 0 {
        lemma_spow_add(g, e2, e1, n);
        assert(spow(g, e1, n) * spow(g, e2, n) == spow(g, e2, n) * spow(g, e1, n))
            by (nonlinear_arith);
    } else {
        let a = e1 as nat;
        let c = (-e2) as nat;
        if a >= c {
            let d = (a - c) as nat;
            lemma_mpow_add(g, d, c, n);
            lemma_mul_mod_assoc(mpow(g, d, n) as int, mpow(g, c, n) as int, mpow(h, c, n) as int, m);
            lemma_pow_cancel(g, h, c, n);
            lemma_mul_one_mod(mpow(g, d, n), n);
        } else {
            let d = (c - a) as nat;
            lemma_mpow_add(h, a, d, n);
            // g^a * (h^a * h^d) == (g^a * h^a) * h^d
            lemma_mul_mod_assoc(mpow(g, a, n) as int, mpow(h, a, n) as int, mpow(h, d, n) as int, m);
            lemma_pow_cancel(g, h, a, n);
            assert(1 * mpow(h, d, n) == mpow(h, d, n) * 1) by (nonlinear_arith);
            lemma_mul_one_mod(mpow(h, d, n), n);
        }
    }
}

/// `(g^a)^y == g^(a*y)` for a signed `a`, a natural `y` and a unit `g`.
pub proof fn lemma_spow_spow(g: nat, a: int, y: nat, n: nat)
    requires
        n > 1,
        is_unit(g, n),
    ensures
        mpow(spow(g, a, n), y, n) == spow(g, a * y, n),
{
    if a >= 0 {
        lemma_mpow_mpow(g, a as nat, y, n);
        assert(a * y >= 0) by (nonlinear_arith) requires a >= 0;
    } else {
        let h = inv_mod(g, n);
        lemma_mpow_mpow(h, (-a) as nat, y, n);
        if y == 0 {
            assert(a * y == 0);
            lemma_pow0(g as int);
            lemma_pow0(h as int);
        } else {
            assert(a * y < 0 && -(a * y) == (-a) * y) by (nonlinear_arith) requires a < 0, y > 0;
        }
    }
}

/// `(g^k)^b == g^(k*b)` for a natural `k`, a signed `b` and a unit `g`.
pub proof fn lemma_spow_of_pow(g: nat, k: nat, b: int, n: nat)
    requires
        n > 1,
        is_unit(g, n),
    ensures
        spow(mpow(g, k, n), b, n) == spow(g, k * b, n),
{
    if b >= 0 {
        lemma_mpow_mpow(g, k, b as nat, n);
        assert(k * b >= 0) by (nonlinear_arith) requires b >= 0;
    } else {
        lemma_inv_mod(g, n);
        let h = inv_mod(g, n);
        let gk = mpow(g, k, n);
        let hk = mpow(h, k, n);
        lemma_pow_cancel(g, h, k, n);
        assert(is_inverse(gk as int, hk as int, n));
        lemma_reduced_inverse(gk, hk as int, n);
        lemma_small_mod(hk, n);
        lemma_mpow_mpow(h, k, (-b) as nat, n);
        if k == 0 {
            assert(k * b == 0);
            lemma_pow0(g as int);
            lemma_pow0(h as int);
        } else {
            assert(k * b < 0 && -(k * b) == k * (-b)) by (nonlinear_arith) requires b < 0, k > 0;
        }
    }
}

/// A power of a product modulo `n` is the product of the powers.
pub proof fn lemma_mpow_distributes(p: nat, q: nat, k: nat, n: nat)
    requires
        n > 0,
    ensures
        mpow((p * q) % n, k, n) == (mpow(p, k, n) * mpow(q, k, n)) % n,
{
    let m = n as int;
    lemma_pow_mod_noop(p as int * q as int, k, m);
    lemma_pow_distributes(p as int, q as int, k);
    lemma_mul_mod_noop(pow(p as int, k), pow(q as int, k), m);
}

/// `g^1 == g` for `g` below `n`.
pub proof fn lemma_spow_one(g: nat, n: nat)
    requires
        n > 1,
        g < n,
    ensures
        spow(g, 1, n) == g,
{
    vstd::arithmetic::power::lemma_pow1(g as int);
    lemma_small_mod(g, n);
}

/// `p^e * q^e == (p q)^e` for a signed `e` and units `p`, `q`.
pub proof fn lemma_spow_distributes(p: nat, q: nat, e: int, n: nat)
    requires
        n > 1,
        is_unit(p, n),
        is_unit(q, n),
    ensures
        (spow(p, e, n) * spow(q, e, n)) % n == spow((p * q) % n, e, n),
{
    let m = n as int;
    if e >= 0 {
        lemma_mpow_distributes(p, q, e as nat, n);
    } else {
        lemma_inv_mod(p, n);
        lemma_inv_mod(q, n);
        let hp = inv_mod(p, n);
        let hq = inv_mod(q, n);
        let pq = ((p * q) % n) as nat;
        let h = ((hp * hq) % n) as nat;
        lemma_mul_mod_noop((p * q) as int, (hp * hq) as int, m);
        assert((p * q) * (hp * hq) == (p * hp) * (q * hq)) by (nonlinear_arith);
        lemma_mul_mod_noop((p * hp) as int, (q * hq) as int, m);
        lemma_small_mod(1, n);
        assert(is_inverse(pq as int, h as int, n));
        lemma_reduced_inverse(pq, h as int, n);
        lemma_small_mod(h, n);
        lemma_mpow_distributes(hp, hq, (-e) as nat, n);
    }
}

} // verus!
