//! Number theory over `Z/nZ`: signed modular powers, the Shamir trick, and
//! `root_factor`, which yields every leave-one-out power at once.

use vstd::prelude::*;
use vstd::arithmetic::power::{pow, lemma_pow_mod_noop, lemma_pow_multiplies, lemma_pow_distributes, lemma1_pow};
use vstd::arithmetic::div_mod::{lemma_mul_mod_noop_left, lemma_mul_mod_noop_right, lemma_mod_bound};
use crate::group::{lemma_mpow_distributes, lemma_spow_spow, lemma_spow_of_pow, lemma_spow_add, lemma_spow_one};
use crate::bignum::{
    Natural, Integer, mpow, spow, gcd, is_unit, is_inverse, inv_mod, bezout_of,
    nat_modpow, nat_mul, nat_div_rem, nat_mod_inverse, int_div_mod_floor, ext_gcd, nat_eq,
};

verus! {

/// The numbers that a sequence of naturals holds.
pub open spec fn values(s: Seq<Natural>) -> Seq<nat> {
    s.map_values(|x: Natural| x@)
}

/// The product of a sequence of numbers (one for the empty sequence).
pub open spec fn prod(s: Seq<nat>) -> nat
    decreases s.len(),
{
    if s.len() == 0 {
        1
    } else {
        prod(s.drop_last()) * s.last()
    }
}

/// The product of a concatenation is the product of the products.
pub proof fn lemma_prod_concat(a: Seq<nat>, b: Seq<nat>)
    ensures
        prod(a + b) == prod(a) * prod(b),
    decreases b.len(),
{
    if b.len() == 0 {
        assert(a + b =~= a);
        assert(prod(a) * 1 == prod(a));
    } else {
        assert((a + b).last() == b.last());
        assert(prod(a + b) == prod((a + b).drop_last()) * (a + b).last());
        assert((a + b).drop_last() =~= a + b.drop_last());
        lemma_prod_concat(a, b.drop_last());
        assert(prod(a) * prod(b.drop_last()) * b.last() == prod(a) * (prod(b.drop_last()) * b.last()))
            by (nonlinear_arith);
    }
}

/// A power of a power modulo `n` is the power of the product of exponents.
pub proof fn lemma_mpow_mpow(b: nat, e1: nat, e2: nat, n: nat)
    requires
        n > 0,
    ensures
        mpow(mpow(b, e1, n), e2, n) == mpow(b, e1 * e2, n),
{
    lemma_pow_mod_noop(pow(b as int, e1), e2, n as int);
    lemma_pow_multiplies(b as int, e1, e2);
}

/// A product of two powers of `b` modulo `n` is the power of the sum.
pub proof fn lemma_mpow_add(b: nat, e1: nat, e2: nat, n: nat)
    requires
        n > 0,
    ensures
        (mpow(b, e1, n) * mpow(b, e2, n)) % n == mpow(b, e1 + e2, n),
{
    vstd::arithmetic::div_mod::lemma_mul_mod_noop(pow(b as int, e1), pow(b as int, e2), n as int);
    vstd::arithmetic::power::lemma_pow_adds(b as int, e1, e2);
}

/// Two inverses of `b` modulo `n` that lie in `[0, n)` are the same.
pub proof fn lemma_inverse_unique(b: nat, i: nat, j: nat, n: nat)
    requires
        n > 1,
        i < n,
        j < n,
        is_inverse(b as int, i as int, n),
        is_inverse(b as int, j as int, n),
    ensures
        i == j,
{
    let m = n as int;
    let (bi, ii, jj) = (b as int, i as int, j as int);
    lemma_mul_mod_noop_right(ii, bi * jj, m);
    assert(ii * (bi * jj) == (ii * bi) * jj) by (nonlinear_arith);
    assert(ii * bi == bi * ii) by (nonlinear_arith);
    lemma_mul_mod_noop_left(ii * bi, jj, m);
    vstd::arithmetic::div_mod::lemma_small_mod(i, n);
    vstd::arithmetic::div_mod::lemma_small_mod(j, n);
    vstd::arithmetic::div_mod::lemma_small_mod(1, n);
}

/// Every power of a unit is a unit.
pub proof fn lemma_unit_pow(b: nat, e: nat, n: nat)
    requires
        n > 1,
        is_unit(b, n),
    ensures
        is_unit(mpow(b, e, n), n),
{
    let m = n as int;
    let i = choose|i: int| is_inverse(b as int, i, n);
    let p = pow(b as int, e);
    let q = pow(i, e);
    lemma_mul_mod_noop_left(p, q, m);
    lemma_pow_distributes(b as int, i, e);
    lemma_pow_mod_noop(b as int * i, e, m);
    lemma1_pow(e);
    vstd::arithmetic::div_mod::lemma_small_mod(1, n);
    assert((b as int * i) % m == 1);
    assert(pow((b as int * i) % m, e) == 1);
    assert(p * q % m == 1);
    assert(mpow(b, e, n) as int == p % m);
    assert(is_inverse(mpow(b, e, n) as int, q, n));
}

/// Reduces an inverse of `b` into `[0, n)`, where it is `inv_mod(b, n)`.
pub proof fn lemma_reduced_inverse(b: nat, i: int, n: nat)
    requires
        n > 1,
        is_inverse(b as int, i, n),
    ensures
        is_unit(b, n),
        0 <= i % (n as int) < n,
        inv_mod(b, n) == i % (n as int),
        is_inverse(b as int, i % (n as int), n),
{
    let m = n as int;
    lemma_mod_bound(i, m);
    lemma_mul_mod_noop_right(b as int, i, m);
    let r = (i % m) as nat;
    assert(r < n && is_inverse(b as int, r as int, n));
    let c = inv_mod(b, n);
    assert(c < n && is_inverse(b as int, c as int, n));
    lemma_inverse_unique(b, r, c, n);
}

/// `b^e mod n` for a signed exponent. A negative power needs `b` to be
/// invertible modulo `n`; where it is not, the result is `None`.
pub fn modpow_uint_int(b: &Natural, e: &Integer, n: &Natural) -> (r: Option<Natural>)
    requires
        n@ > 1,
    ensures
        r is Some <==> (e@ >= 0 || is_unit(b@, n@)),
        r matches Some(v) ==> v@ == spow(b@, e@, n@),
{
    if !e.is_negative() {
        let v = nat_modpow(b, e.magnitude(), n);
        return Some(v);
    }
    match nat_mod_inverse(b, n) {
        None => None,
        Some(i) => {
            let (q, i_red) = int_div_mod_floor(&i, n);
            proof {
                assert(i_red@ == i@ % (n@ as int)) by {
                    vstd::arithmetic::div_mod::lemma_fundamental_div_mod_converse(
                        i@, n@ as int, q@, i_red@ as int);
                }
                lemma_reduced_inverse(b@, i@, n@);
            }
            Some(nat_modpow(&i_red, e.magnitude(), n))
        },
    }
}

/// The product `(a * b) mod n`.
pub fn mul_mod(a: &Natural, b: &Natural, n: &Natural) -> (r: Natural)
    requires
        n@ > 0,
    ensures
        r@ == (a@ * b@) % n@,
{
    let p = nat_mul(a, b);
    nat_div_rem(&p, n).1
}

/// Combines an `x`-th root `w_x` and a `y`-th root `w_y` of one element into
/// its `xy`-th root, `w_x^b * w_y^a mod n` where `a*x + b*y == 1`. Fails
/// exactly where `x` and `y` are not coprime.
pub fn shamir_trick(w_x: &Natural, w_y: &Natural, x: &Natural, y: &Natural, n: &Natural) -> (r:
    Option<Natural>)
    requires
        n@ > 1,
        is_unit(w_x@, n@),
        is_unit(w_y@, n@),
    ensures
        r is Some <==> gcd(x@, y@) == 1,
        r matches Some(v) ==> v@ == (spow(w_x@, bezout_of(x@, y@).1, n@) * spow(
            w_y@,
            bezout_of(x@, y@).0,
            n@,
        )) % n@,
        r is Some ==> bezout_of(x@, y@).0 * x@ + bezout_of(x@, y@).1 * y@ == 1,
        mpow(w_x@, x@, n@) == mpow(w_y@, y@, n@) ==> (r matches Some(v) ==> mpow(
            v@,
            x@ * y@,
            n@,
        ) == mpow(w_x@, x@, n@)),
{
    let (d, a, b) = ext_gcd(x, y);
    if !nat_eq(&d, &Natural::one()) {
        return None;
    }
    proof {
        if mpow(w_x@, x@, n@) == mpow(w_y@, y@, n@) {
            lemma_shamir(w_x@, w_y@, x@, y@, a@, b@, n@);
        }
    }
    let l = modpow_uint_int(w_x, &b, n);
    let r = modpow_uint_int(w_y, &a, n);
    match (l, r) {
        (Some(l), Some(r)) => Some(mul_mod(&l, &r, n)),
        _ => None,
    }
}

/// The Shamir trick yields an `xy`-th root: where `w_x^x == w_y^y == A` and
/// `s*x + t*y == 1`, `(w_x^t * w_y^s)^(xy) == A`.
pub proof fn lemma_shamir(w_x: nat, w_y: nat, x: nat, y: nat, s: int, t: int, n: nat)
    requires
        n > 1,
        is_unit(w_x, n),
        is_unit(w_y, n),
        mpow(w_x, x, n) == mpow(w_y, y, n),
        s * x + t * y == 1,
    ensures
        mpow((spow(w_x, t, n) * spow(w_y, s, n)) % n, x * y, n) == mpow(w_x, x, n),
{
    let a = mpow(w_x, x, n);
    lemma_mpow_distributes(spow(w_x, t, n), spow(w_y, s, n), x * y, n);
    lemma_spow_spow(w_x, t, x * y, n);
    lemma_spow_spow(w_y, s, x * y, n);
    lemma_spow_of_pow(w_x, x, t * y, n);
    lemma_spow_of_pow(w_y, y, s * x, n);
    assert(t * (x * y) == x * (t * y)) by (nonlinear_arith);
    assert(s * (x * y) == y * (s * x)) by (nonlinear_arith);
    lemma_unit_pow(w_x, x, n);
    lemma_spow_add(a, t * y, s * x, n);
    assert(t * y + s * x == 1);
    lemma_spow_one(a, n);
}

/// The Shamir trick on the canonical witnesses `g^(S/X)` and `g^(S/x)` of
/// coprime divisors `X`, `x` of `S` yields the canonical witness `g^(S/(X x))`.
pub proof fn lemma_shamir_canonical(g: nat, big_s: nat, big_x: nat, x: nat, s: int, t: int, n: nat)
    requires
        n > 1,
        is_unit(g, n),
        big_x > 0,
        x > 0,
        big_s % big_x == 0,
        big_s % x == 0,
        s * big_x + t * x == 1,
    ensures
        big_s % (big_x * x) == 0,
        (spow(mpow(g, big_s / big_x, n), t, n) * spow(mpow(g, big_s / x, n), s, n)) % n == mpow(
            g,
            big_s / (big_x * x),
            n,
        ),
{
    let a = big_s / x;
    let b = big_s / big_x;
    vstd::arithmetic::div_mod::lemma_fundamental_div_mod(big_s as int, x as int);
    vstd::arithmetic::div_mod::lemma_fundamental_div_mod(big_s as int, big_x as int);
    let m = s * a + t * b;
    assert(big_s == x * a);
    assert(big_s == big_x * b);
    assert(big_s * (s * big_x + t * x) == big_s) by (nonlinear_arith)
        requires s * big_x + t * x == 1;
    assert(big_s * (s * big_x) == (big_x * x) * (s * a)) by (nonlinear_arith)
        requires big_s == x * a;
    assert(big_s * (t * x) == (big_x * x) * (t * b)) by (nonlinear_arith)
        requires big_s == big_x * b;
    assert(big_s * (s * big_x + t * x) == big_s * (s * big_x) + big_s * (t * x)) by (nonlinear_arith);
    assert((big_x * x) * (s * a) + (big_x * x) * (t * b) == (big_x * x) * m) by (nonlinear_arith)
        requires m == s * a + t * b;
    assert(big_s == (big_x * x) * m);
    assert(big_x * x > 0) by (nonlinear_arith) requires big_x > 0, x > 0;
    assert(m >= 0) by (nonlinear_arith) requires big_s == (big_x * x) * m, big_x * x > 0;
    vstd::arithmetic::div_mod::lemma_fundamental_div_mod_converse(
        big_s as int,
        (big_x * x) as int,
        m,
        0,
    );
    lemma_spow_of_pow(g, b, t, n);
    lemma_spow_of_pow(g, a, s, n);
    lemma_spow_add(g, b * t, a * s, n);
    assert(b * t + a * s == m) by (nonlinear_arith)
        requires m == s * a + t * b;
}

/// The product of `xs[lo..hi]`.
pub fn product_range(xs: &[Natural], lo: usize, hi: usize) -> (r: Natural)
    requires
        lo <= hi <= xs@.len(),
    ensures
        r@ == prod(values(xs@).subrange(lo as int, hi as int)),
{
    let mut acc = Natural::one();
    let mut i: usize = lo;
    while i < hi
        invariant
            lo <= i <= hi <= xs@.len(),
            acc@ == prod(values(xs@).subrange(lo as int, i as int)),
        decreases hi - i,
    {
        acc = nat_mul(&acc, &xs[i]);
        proof {
            assert(values(xs@).subrange(lo as int, i + 1).drop_last() =~= values(xs@).subrange(
                lo as int,
                i as int,
            ));
        }
        i = i + 1;
    }
    acc
}

/// The product of all of `xs`.
pub fn product(xs: &[Natural]) -> (r: Natural)
    ensures
        r@ == prod(values(xs@)),
{
    let r = product_range(xs, 0, xs.len());
    assert(values(xs@).subrange(0, xs@.len() as int) =~= values(xs@));
    r
}

/// What `root_factor` yields at index `i`: `g` to the product of all the
/// primes but the `i`-th, modulo `n`.
pub open spec fn leave_one_out(g: nat, primes: Seq<nat>, i: int, n: nat) -> nat {
    mpow(g, prod(primes.remove(i)), n)
}

proof fn lemma_split_left(l: Seq<nat>, r: Seq<nat>, i: int)
    requires
        0 <= i < l.len(),
    ensures
        prod((l + r).remove(i)) == prod(r) * prod(l.remove(i)),
{
    assert((l + r).remove(i) =~= l.remove(i) + r);
    lemma_prod_concat(l.remove(i), r);
    assert(prod(l.remove(i)) * prod(r) == prod(r) * prod(l.remove(i))) by (nonlinear_arith);
}

proof fn lemma_split_right(l: Seq<nat>, r: Seq<nat>, j: int)
    requires
        0 <= j < r.len(),
    ensures
        prod((l + r).remove(l.len() + j)) == prod(l) * prod(r.remove(j)),
{
    assert((l + r).remove(l.len() + j) =~= l + r.remove(j));
    lemma_prod_concat(l, r.remove(j));
}

/// `root_factor` on `primes[lo..hi]`, by halves.
fn root_factor_range(g: &Natural, primes: &[Natural], lo: usize, hi: usize, n: &Natural) -> (r: Vec<
    Natural,
>)
    requires
        n@ > 0,
        g@ < n@,
        lo < hi <= primes@.len(),
    ensures
        r@.len() == hi - lo,
        forall|i: int|
            0 <= i < hi - lo ==> #[trigger] r@[i]@ == leave_one_out(
                g@,
                values(primes@).subrange(lo as int, hi as int),
                i,
                n@,
            ),
    decreases hi - lo,
{
    let ghost s = values(primes@).subrange(lo as int, hi as int);
    if hi - lo == 1 {
        proof {
            assert(s.remove(0) =~= Seq::<nat>::empty());
            vstd::arithmetic::power::lemma_pow1(g@ as int);
            vstd::arithmetic::div_mod::lemma_small_mod(g@, n@);
        }
        return vec![g.clone()];
    }
    let mid: usize = lo + (hi - lo) / 2;
    let ghost sl = values(primes@).subrange(lo as int, mid as int);
    let ghost sr = values(primes@).subrange(mid as int, hi as int);
    proof {
        assert(s =~= sl + sr);
    }
    let pr = product_range(primes, mid, hi);
    let gl = nat_modpow(g, &pr, n);
    let left = root_factor_range(&gl, primes, lo, mid, n);
    let pl = product_range(primes, lo, mid);
    let gr = nat_modpow(g, &pl, n);
    let right = root_factor_range(&gr, primes, mid, hi, n);
    let mut out: Vec<Natural> = Vec::new();
    let mut i: usize = 0;
    while i < left.len()
        invariant
            0 <= i <= left@.len(),
            left@.len() == mid - lo,
            out@.len() == i,
            forall|k: int| 0 <= k < i ==> #[trigger] out@[k]@ == leave_one_out(g@, s, k, n@),
            forall|k: int|
                0 <= k < mid - lo ==> #[trigger] left@[k]@ == leave_one_out(gl@, sl, k, n@),
            gl@ == mpow(g@, prod(sr), n@),
            s == sl + sr,
            sl.len() == mid - lo,
            sr.len() == hi - mid,
            n@ > 0,
        decreases left@.len() - i,
    {
        proof {
            lemma_mpow_mpow(g@, prod(sr), prod(sl.remove(i as int)), n@);
            lemma_split_left(sl, sr, i as int);
        }
        out.push(left[i].clone());
        i = i + 1;
    }
    let mut j: usize = 0;
    while j < right.len()
        invariant
            0 <= j <= right@.len(),
            right@.len() == hi - mid,
            left@.len() == mid - lo,
            out@.len() == mid - lo + j,
            forall|k: int|
                0 <= k < mid - lo + j ==> #[trigger] out@[k]@ == leave_one_out(g@, s, k, n@),
            forall|k: int|
                0 <= k < hi - mid ==> #[trigger] right@[k]@ == leave_one_out(gr@, sr, k, n@),
            gr@ == mpow(g@, prod(sl), n@),
            s == sl + sr,
            sl.len() == mid - lo,
            sr.len() == hi - mid,
            n@ > 0,
        decreases right@.len() - j,
    {
        proof {
            lemma_mpow_mpow(g@, prod(sl), prod(sr.remove(j as int)), n@);
            lemma_split_right(sl, sr, j as int);
        }
        out.push(right[j].clone());
        j = j + 1;
    }
    out
}

/// Every leave-one-out power of `g` over `primes`, modulo `n`, in the order of
/// `primes`: entry `i` is `g` to the product of all primes but `primes[i]`.
pub fn root_factor(g: &Natural, primes: &[Natural], n: &Natural) -> (r: Vec<Natural>)
    requires
        n@ > 0,
        g@ < n@,
    ensures
        r@.len() == primes@.len(),
        forall|i: int|
            0 <= i < primes@.len() ==> #[trigger] r@[i]@ == leave_one_out(
                g@,
                values(primes@),
                i,
                n@,
            ),
{
    if primes.len() == 0 {
        return Vec::new();
    }
    let r = root_factor_range(g, primes, 0, primes.len(), n);
    assert(values(primes@).subrange(0, primes@.len() as int) =~= values(primes@));
    r
}

} // verus!
