//! The accumulator: `root = g^set mod n`, where `set` is the product of the
//! accumulated primes, with its static, dynamic, universal, batched and
//! aggregated operations.

use vstd::prelude::*;
use crate::bignum::{
    Natural, Integer, mpow, spow, gcd, is_unit, inv_mod, bezout_of, nat_modpow, nat_mul,
    nat_div_rem, nat_eq, nat_gcd, ext_gcd, nat_mod_inverse, int_div_mod_floor,
};
use crate::math::{
    values, prod, leave_one_out, modpow_uint_int, shamir_trick, mul_mod, product, root_factor,
    lemma_mpow_mpow, lemma_reduced_inverse, lemma_unit_pow, lemma_shamir_canonical,
};
use crate::group::{lemma_spow_spow, lemma_spow_of_pow, lemma_spow_add, lemma_spow_one};
use crate::proofs::{
    poe_proof, poe_accepts, poke2_proof, poke2_accepts, ni_poe_prove, ni_poe_verify,
    ni_poke2_prove, ni_poke2_verify,
};

verus! {

/// The mathematical state of an accumulator.
pub struct AccumulatorModel {
    pub int_size_bits: nat,
    pub g: nat,
    pub n: nat,
    pub root: nat,
    pub set: nat,
}

/// An accumulator over `Z/nZ` with generator `g`: `root` commits to the
/// primes whose product is `set`.
pub struct Accumulator {
    int_size_bits: usize,
    g: Natural,
    n: Natural,
    root: Natural,
    set: Natural,
}

impl View for Accumulator {
    type V = AccumulatorModel;

    closed spec fn view(&self) -> AccumulatorModel {
        AccumulatorModel {
            int_size_bits: self.int_size_bits as nat,
            g: self.g@,
            n: self.n@,
            root: self.root@,
            set: self.set@,
        }
    }
}

/// Whether `(d, b)` is a non-membership witness of `x` for the state `a`:
/// `d^x * root^b == g` modulo `n`.
pub open spec fn non_mem_accepts(a: AccumulatorModel, d: nat, b: int, x: nat) -> bool {
    &&& (b >= 0 || is_unit(a.root, a.n))
    &&& (mpow(d, x, a.n) * spow(a.root, b, a.n)) % a.n == a.g
}

/// The element `g * v^-1 mod n` that the NI-PoE of a starred non-membership
/// witness speaks of.
pub open spec fn star_k(a: AccumulatorModel, v: nat) -> nat {
    (a.g * inv_mod(v, a.n)) % a.n
}

/// The starred non-membership witness `(d, v, pi_d, pi_g)` of `x`.
pub open spec fn non_mem_star(a: AccumulatorModel, x: nat) -> Option<
    (nat, nat, (nat, nat, int), nat),
> {
    let (ca, cb) = bezout_of(x, a.set);
    let d = spow(a.g, ca, a.n);
    if cb < 0 && !is_unit(a.root, a.n) {
        None
    } else {
        let v = spow(a.root, cb, a.n);
        if !is_unit(v, a.n) {
            None
        } else {
            match (poke2_proof(cb, a.root, v, a.n), poe_proof(x, d, star_k(a, v), a.n)) {
                (Some(pd), Some(pg)) => Some((d, v, pd, pg)),
                _ => None,
            }
        }
    }
}

/// Whether the starred non-membership witness `(d, v, pi_d, pi_g)` of `x` checks.
pub open spec fn non_mem_star_accepts(
    a: AccumulatorModel,
    x: nat,
    d: nat,
    v: nat,
    pd: (nat, nat, int),
    pg: nat,
) -> bool {
    &&& poke2_accepts(a.root, v, pd.0, pd.1, pd.2, a.n)
    &&& is_unit(v, a.n)
    &&& poe_accepts(x, d, star_k(a, v), pg, a.n)
}

/// What `shamir_trick` returns on roots that may be combined.
pub open spec fn shamir_spec(w_x: nat, w_y: nat, x: nat, y: nat, n: nat) -> nat {
    (spow(w_x, bezout_of(x, y).1, n) * spow(w_y, bezout_of(x, y).0, n)) % n
}

/// The numbers that a sequence of pairs of naturals holds.
pub open spec fn pair_values(s: Seq<(Natural, Natural)>) -> Seq<(nat, nat)> {
    s.map_values(|p: (Natural, Natural)| (p.0@, p.1@))
}

/// Folds the (prime, witness) pairs of a batch deletion into the product of
/// the primes and the root of that product: each next pair is merged by the
/// Shamir trick, which needs coprime exponents and invertible roots.
pub open spec fn batch_del_fold(ps: Seq<(nat, nat)>, n: nat) -> Option<(nat, nat)>
    decreases ps.len(),
{
    if ps.len() == 0 {
        None
    } else if ps.len() == 1 {
        Some((ps[0].0, ps[0].1))
    } else {
        match batch_del_fold(ps.drop_last(), n) {
            None => None,
            Some((xs, r)) => {
                let (x, w) = ps.last();
                if gcd(xs, x) == 1 && is_unit(r, n) && is_unit(w, n) {
                    Some((xs * x, shamir_spec(r, w, xs, x, n)))
                } else {
                    None
                }
            },
        }
    }
}

/// Every witness in `ps` is the canonical one, `g^(set / x)`, of a divisor
/// `x` of `set`.
pub open spec fn canonical_witnesses(a: AccumulatorModel, ps: Seq<(nat, nat)>) -> bool {
    forall|i: int|
        0 <= i < ps.len() ==> a.set % (#[trigger] ps[i]).0 == 0 && ps[i].1 == mpow(
            a.g,
            a.set / ps[i].0,
            a.n,
        )
}

impl Clone for Accumulator {
    fn clone(&self) -> (r: Accumulator)
        ensures
            r@ == self@,
    {
        Accumulator {
            int_size_bits: self.int_size_bits,
            g: self.g.clone(),
            n: self.n.clone(),
            root: self.root.clone(),
            set: self.set.clone(),
        }
    }
}

impl Accumulator {
    /// The public parameters are sound: `n > 1` and `g` an invertible residue.
    pub open spec fn wf(&self) -> bool {
        &&& self@.n > 1
        &&& self@.g < self@.n
        &&& is_unit(self@.g, self@.n)
    }

    /// The core invariant: `root == g^set mod n`.
    pub open spec fn sound(&self) -> bool {
        self@.root == mpow(self@.g, self@.set, self@.n)
    }

    /// A fresh accumulator over the group `(n, g)` that a trusted setup of
    /// `int_size_bits` bits produced: `root = g`, the empty set (product one).
    pub fn setup(n: Natural, g: Natural, int_size_bits: usize) -> (r: Accumulator)
        requires
            n@ > 1,
            g@ < n@,
            is_unit(g@, n@),
        ensures
            r@ == (AccumulatorModel {
                int_size_bits: int_size_bits as nat,
                g: g@,
                n: n@,
                root: g@,
                set: 1,
            }),
            r.wf(),
            r.sound(),
    {
        proof {
            vstd::arithmetic::power::lemma_pow1(g@ as int);
            vstd::arithmetic::div_mod::lemma_small_mod(g@, n@);
        }
        Accumulator { int_size_bits, root: g.clone(), g, n, set: Natural::one() }
    }

    /// The current public state, `root`.
    pub fn state(&self) -> (r: &Natural)
        ensures
            r@ == self@.root,
    {
        &self.root
    }

    /// The modulus `n`.
    pub fn modulus(&self) -> (r: &Natural)
        ensures
            r@ == self@.n,
    {
        &self.n
    }

    /// The generator `g`.
    pub fn generator(&self) -> (r: &Natural)
        ensures
            r@ == self@.g,
    {
        &self.g
    }

    /// Accumulates the prime `x`: `set *= x`, `root = root^x mod n`.
    pub fn add(&mut self, x: &Natural)
        requires
            old(self).wf(),
        ensures
            final(self)@ == (AccumulatorModel {
                set: old(self)@.set * x@,
                root: mpow(old(self)@.root, x@, old(self)@.n),
                ..old(self)@
            }),
            final(self).wf(),
            old(self).sound() ==> final(self).sound(),
    {
        proof {
            lemma_mpow_mpow(self@.g, self@.set, x@, self@.n);
        }
        self.set = nat_mul(&self.set, x);
        self.root = nat_modpow(&self.root, x, &self.n);
    }

    /// The membership witness of `x`, a member: `g^(set / x) mod n`.
    pub fn mem_wit_create(&self, x: &Natural) -> (r: Natural)
        requires
            self.wf(),
            x@ > 0,
            self@.set % x@ == 0,
        ensures
            r@ == mpow(self@.g, self@.set / x@, self@.n),
    {
        let (s, _) = nat_div_rem(&self.set, x);
        nat_modpow(&self.g, &s, &self.n)
    }

    /// Whether `w` is a membership witness of `x`: `w^x mod n == root`.
    pub fn ver_mem(&self, w: &Natural, x: &Natural) -> (r: bool)
        requires
            self.wf(),
        ensures
            r == (mpow(w@, x@, self@.n) == self@.root),
    {
        nat_eq(&nat_modpow(w, x, &self.n), &self.root)
    }

    /// Removes the member `x` by recomputing `root = g^(set / x) mod n`.
    /// Fails, and changes nothing, where `x` does not divide `set`.
    pub fn del(&mut self, x: &Natural) -> (r: Option<()>)
        requires
            old(self).wf(),
            x@ > 0,
        ensures
            r is None <==> old(self)@.set % x@ != 0,
            r is None ==> final(self)@ == old(self)@,
            r is Some ==> final(self)@ == (AccumulatorModel {
                set: old(self)@.set / x@,
                root: mpow(old(self)@.g, old(self)@.set / x@, old(self)@.n),
                ..old(self)@
            }),
            final(self).wf(),
            r is Some ==> final(self).sound(),
    {
        let (s, rem) = nat_div_rem(&self.set, x);
        if !rem.is_zero() {
            return None;
        }
        self.root = nat_modpow(&self.g, &s, &self.n);
        self.set = s;
        Some(())
    }

    /// The non-membership witness `(d, b)` of `x`: with `a*x + b*set == gcd`,
    /// `d = g^a mod n`.
    pub fn non_mem_wit_create(&self, x: &Natural) -> (r: (Natural, Integer))
        requires
            self.wf(),
        ensures
            r.0@ == spow(self@.g, bezout_of(x@, self@.set).0, self@.n),
            r.1@ == bezout_of(x@, self@.set).1,
            self.sound() && gcd(x@, self@.set) == 1 ==> non_mem_accepts(self@, r.0@, r.1@, x@),
    {
        let (z, a, b) = ext_gcd(x, &self.set);
        proof {
            if self.sound() && gcd(x@, self@.set) == 1 {
                let (g, n, set) = (self@.g, self@.n, self@.set);
                lemma_unit_pow(g, set, n);
                lemma_spow_spow(g, a@, x@, n);
                lemma_spow_of_pow(g, set, b@, n);
                lemma_spow_add(g, a@ * x@, set * b@, n);
                assert(a@ * x@ + set * b@ == 1) by (nonlinear_arith)
                    requires a@ * x@ + b@ * set == 1;
                lemma_spow_one(g, n);
            }
        }
        let d = modpow_uint_int(&self.g, &a, &self.n).unwrap();
        (d, b)
    }

    /// Whether `(d, b)` is a non-membership witness of `x`: `d^x * root^b == g`.
    pub fn ver_non_mem(&self, w: &(Natural, Integer), x: &Natural) -> (r: bool)
        requires
            self.wf(),
        ensures
            r == non_mem_accepts(self@, w.0@, w.1@, x@),
    {
        let (d, b) = w;
        let a_b = match modpow_uint_int(&self.root, b, &self.n) {
            None => return false,
            Some(v) => v,
        };
        let d_x = nat_modpow(d, x, &self.n);
        nat_eq(&mul_mod(&d_x, &a_b, &self.n), &self.g)
    }

    /// Accumulates all of `xs` at once, with an NI-PoE that the new root is
    /// the old one to the product of `xs`. The state changes in any case; the
    /// proof is `None` only where its prime search ran out.
    pub fn batch_add(&mut self, xs: &[Natural]) -> (r: Option<Natural>)
        requires
            old(self).wf(),
        ensures
            final(self)@ == (AccumulatorModel {
                set: old(self)@.set * prod(values(xs@)),
                root: mpow(old(self)@.root, prod(values(xs@)), old(self)@.n),
                ..old(self)@
            }),
            final(self).wf(),
            old(self).sound() ==> final(self).sound(),
            r is Some <==> poe_proof(
                prod(values(xs@)),
                old(self)@.root,
                final(self)@.root,
                old(self)@.n,
            ) is Some,
            r matches Some(p) ==> poe_proof(
                prod(values(xs@)),
                old(self)@.root,
                final(self)@.root,
                old(self)@.n,
            ) == Some(p@),
    {
        let x_star = product(xs);
        proof {
            lemma_mpow_mpow(self@.g, self@.set, x_star@, self@.n);
        }
        self.set = nat_mul(&self.set, &x_star);
        let root_old = self.root.clone();
        self.root = nat_modpow(&root_old, &x_star, &self.n);
        ni_poe_prove(&x_star, &root_old, &self.root, &self.n)
    }

    /// Checks the proof `w` of a batch addition of `xs` that moved the state
    /// from `root` to the current one.
    pub fn ver_batch_add(&self, w: &Natural, root: &Natural, xs: &[Natural]) -> (r: bool)
        requires
            self.wf(),
        ensures
            r == poe_accepts(prod(values(xs@)), root@, self@.root, w@, self@.n),
    {
        let x_star = product(xs);
        ni_poe_verify(&x_star, root, &self.root, w, &self.n)
    }

    /// Deletes all the members of `pairs` (prime, witness) at once: the new
    /// root is the root of the product of the primes that the Shamir trick
    /// yields, and the proof is an NI-PoE that it is. All or nothing: on
    /// `None` the state is unchanged.
    pub fn batch_del(&mut self, pairs: &[(Natural, Natural)]) -> (r: Option<Natural>)
        requires
            old(self).wf(),
            forall|i: int| 0 <= i < pairs@.len() ==> #[trigger] pairs@[i].0@ > 0,
        ensures
            final(self).wf(),
            r is Some <==> (batch_del_fold(pair_values(pairs@), old(self)@.n) matches Some(
                f,
            ) && poe_proof(f.0, f.1, old(self)@.root, old(self)@.n) is Some),
            r is None ==> final(self)@ == old(self)@,
            r matches Some(p) ==> (batch_del_fold(pair_values(pairs@), old(self)@.n) matches Some(
                f,
            ) && final(self)@ == (AccumulatorModel {
                set: old(self)@.set / f.0,
                root: f.1,
                ..old(self)@
            }) && poe_proof(f.0, f.1, old(self)@.root, old(self)@.n) == Some(p@)),
            old(self).sound() && canonical_witnesses(old(self)@, pair_values(pairs@)) && r is Some
                ==> final(self).sound(),
    {
        let ghost pv = pair_values(pairs@);
        let ghost canon = self.sound() && canonical_witnesses(self@, pv);
        if pairs.len() == 0 {
            return None;
        }
        let mut x_star = pairs[0].0.clone();
        let mut new_root = pairs[0].1.clone();
        proof {
            assert(pv.subrange(0, 1).len() == 1);
            assert(pv[0] == (x_star@, new_root@));
        }
        let mut i: usize = 1;
        while i < pairs.len()
            invariant
                1 <= i <= pairs@.len(),
                pv == pair_values(pairs@),
                self.wf(),
                forall|k: int| 0 <= k < pairs@.len() ==> #[trigger] pairs@[k].0@ > 0,
                batch_del_fold(pv.subrange(0, i as int), self@.n) == Some((x_star@, new_root@)),
                x_star@ > 0,
                canon == (self.sound() && canonical_witnesses(self@, pv)),
                canon ==> self@.set % x_star@ == 0 && new_root@ == mpow(
                    self@.g,
                    self@.set / x_star@,
                    self@.n,
                ),
            decreases pairs@.len() - i,
        {
            proof {
                assert(pv.subrange(0, i + 1).drop_last() =~= pv.subrange(0, i as int));
            }
            let (xi, wi) = (&pairs[i].0, &pairs[i].1);
            if nat_mod_inverse(&new_root, &self.n).is_none() || nat_mod_inverse(wi, &self.n).is_none() {
                proof {
                    assert(batch_del_fold(pv, self@.n) is None) by {
                        lemma_fold_stays_none(pv, i as int + 1, self@.n);
                    }
                }
                return None;
            }
            match shamir_trick(&new_root, wi, &x_star, xi, &self.n) {
                None => {
                    proof {
                        lemma_fold_stays_none(pv, i as int + 1, self@.n);
                    }
                    return None;
                },
                Some(v) => {
                    proof {
                        if canon {
                            assert(pv[i as int] == (xi@, wi@));
                            lemma_shamir_canonical(
                                self@.g,
                                self@.set,
                                x_star@,
                                xi@,
                                bezout_of(x_star@, xi@).0,
                                bezout_of(x_star@, xi@).1,
                                self@.n,
                            );
                        }
                    }
                    new_root = v;
                },
            }
            proof {
                assert(x_star@ * xi@ > 0) by (nonlinear_arith)
                    requires x_star@ > 0, xi@ > 0;
            }
            x_star = nat_mul(&x_star, xi);
            i = i + 1;
        }
        proof {
            assert(pv.subrange(0, pairs@.len() as int) =~= pv);
        }
        match ni_poe_prove(&x_star, &new_root, &self.root, &self.n) {
            None => None,
            Some(p) => {
                let (s, _) = nat_div_rem(&self.set, &x_star);
                self.set = s;
                self.root = new_root;
                Some(p)
            },
        }
    }

    /// Checks the proof `w` of a batch deletion of `xs` that moved the state
    /// from `root` to the current one.
    pub fn ver_batch_del(&self, w: &Natural, root: &Natural, xs: &[Natural]) -> (r: bool)
        requires
            self.wf(),
        ensures
            r == poe_accepts(prod(values(xs@)), self@.root, root@, w@, self@.n),
    {
        let x_star = product(xs);
        ni_poe_verify(&x_star, &self.root, root, w, &self.n)
    }

    /// Deletes the member `x` with its witness `w`, which becomes the root.
    /// Fails, and changes nothing, where `w` does not verify.
    pub fn del_w_mem(&mut self, w: &Natural, x: &Natural) -> (r: Option<()>)
        requires
            old(self).wf(),
            x@ > 0,
        ensures
            final(self).wf(),
            r is None <==> mpow(w@, x@, old(self)@.n) != old(self)@.root,
            r is None ==> final(self)@ == old(self)@,
            r is Some ==> final(self)@ == (AccumulatorModel {
                set: old(self)@.set / x@,
                root: w@,
                ..old(self)@
            }),
            r is Some && w@ == mpow(old(self)@.g, old(self)@.set / x@, old(self)@.n)
                ==> final(self).sound(),
    {
        if !self.ver_mem(w, x) {
            return None;
        }
        let (s, _) = nat_div_rem(&self.set, x);
        self.set = s;
        self.root = w.clone();
        Some(())
    }

    /// The membership witnesses of all of `set`, in its order (`root_factor`
    /// from `g`).
    pub fn create_all_mem_wit(&self, set: &[Natural]) -> (r: Vec<Natural>)
        requires
            self.wf(),
        ensures
            r@.len() == set@.len(),
            forall|i: int|
                0 <= i < set@.len() ==> #[trigger] r@[i]@ == leave_one_out(
                    self@.g,
                    values(set@),
                    i,
                    self@.n,
                ),
    {
        root_factor(&self.g, set, &self.n)
    }

    /// Aggregates the witnesses of `x` and `y` into one of `x*y`, with an
    /// NI-PoE that it is one. Fails where `x` and `y` are not coprime, or the
    /// proof's prime search ran out.
    pub fn agg_mem_wit(&self, w_x: &Natural, w_y: &Natural, x: &Natural, y: &Natural) -> (r: Option<
        (Natural, Natural),
    >)
        requires
            self.wf(),
            is_unit(w_x@, self@.n),
            is_unit(w_y@, self@.n),
        ensures
            r is Some <==> (gcd(x@, y@) == 1 && poe_proof(
                x@ * y@,
                shamir_spec(w_x@, w_y@, x@, y@, self@.n),
                self@.root,
                self@.n,
            ) is Some),
            r matches Some(p) ==> p.0@ == shamir_spec(w_x@, w_y@, x@, y@, self@.n) && poe_proof(
                x@ * y@,
                p.0@,
                self@.root,
                self@.n,
            ) == Some(p.1@),
    {
        let w_xy = match shamir_trick(w_x, w_y, x, y, &self.n) {
            None => return None,
            Some(v) => v,
        };
        let xy = nat_mul(x, y);
        match ni_poe_prove(&xy, &w_xy, &self.root, &self.n) {
            None => None,
            Some(pi) => Some((w_xy, pi)),
        }
    }

    /// Checks an aggregated witness `w_xy` of `x` and `y` with its proof `pi`.
    pub fn ver_agg_mem_wit(&self, w_xy: &Natural, pi: &Natural, x: &Natural, y: &Natural) -> (r:
        bool)
        requires
            self.wf(),
        ensures
            r == poe_accepts(x@ * y@, w_xy@, self@.root, pi@, self@.n),
    {
        let xy = nat_mul(x, y);
        ni_poe_verify(&xy, w_xy, &self.root, pi, &self.n)
    }

    /// The membership witness of `x` with an NI-PoE that it is one. `None`
    /// only where the proof's prime search ran out.
    pub fn mem_wit_create_star(&self, x: &Natural) -> (r: Option<(Natural, Natural)>)
        requires
            self.wf(),
            x@ > 0,
            self@.set % x@ == 0,
        ensures
            r is Some <==> poe_proof(
                x@,
                mpow(self@.g, self@.set / x@, self@.n),
                self@.root,
                self@.n,
            ) is Some,
            r matches Some(p) ==> p.0@ == mpow(self@.g, self@.set / x@, self@.n) && poe_proof(
                x@,
                p.0@,
                self@.root,
                self@.n,
            ) == Some(p.1@),
    {
        let w_x = self.mem_wit_create(x);
        match ni_poe_prove(x, &w_x, &self.root, &self.n) {
            None => None,
            Some(p) => Some((w_x, p)),
        }
    }

    /// Checks a starred membership witness `(w, pi)` of `x`.
    pub fn ver_mem_star(&self, x: &Natural, pi: &(Natural, Natural)) -> (r: bool)
        requires
            self.wf(),
        ensures
            r == poe_accepts(x@, pi.0@, self@.root, pi.1@, self@.n),
    {
        ni_poe_verify(x, &pi.0, &self.root, &pi.1, &self.n)
    }

    /// The cross-accumulator witness of `x` here and `y` in `other`:
    /// `w_x * w_y mod n`.
    pub fn mem_wit_x(
        &self,
        other: &Natural,
        w_x: &Natural,
        w_y: &Natural,
        x: &Natural,
        y: &Natural,
    ) -> (r: Natural)
        requires
            self.wf(),
        ensures
            r@ == (w_x@ * w_y@) % self@.n,
    {
        mul_mod(w_x, w_y, &self.n)
    }

    /// Checks a cross-accumulator witness `pi` of `x` here and `y` in the
    /// accumulator whose root is `other`: `x`, `y` coprime and
    /// `pi^(xy) == root^y * other^x` modulo `n`.
    pub fn ver_mem_x(&self, other: &Natural, pi: &Natural, x: &Natural, y: &Natural) -> (r: bool)
        requires
            self.wf(),
        ensures
            r == (gcd(x@, y@) == 1 && mpow(pi@, x@ * y@, self@.n) == (mpow(self@.root, y@, self@.n)
                * mpow(other@, x@, self@.n)) % self@.n),
    {
        if !nat_eq(&nat_gcd(x, y), &Natural::one()) {
            return false;
        }
        let rhs_a = nat_modpow(&self.root, y, &self.n);
        let rhs_b = nat_modpow(other, x, &self.n);
        let rhs = mul_mod(&rhs_a, &rhs_b, &self.n);
        let lhs = nat_modpow(pi, &nat_mul(x, y), &self.n);
        nat_eq(&lhs, &rhs)
    }

    /// `g * v^-1 mod n`, for an invertible `v`.
    fn star_k(&self, v: &Natural) -> (r: Option<Natural>)
        requires
            self.wf(),
        ensures
            r is Some <==> is_unit(v@, self@.n),
            r matches Some(k) ==> k@ == star_k(self@, v@),
    {
        match nat_mod_inverse(v, &self.n) {
            None => None,
            Some(i) => {
                let (q, i_red) = int_div_mod_floor(&i, &self.n);
                proof {
                    vstd::arithmetic::div_mod::lemma_fundamental_div_mod_converse(
                        i@,
                        self@.n as int,
                        q@,
                        i_red@ as int,
                    );
                    lemma_reduced_inverse(v@, i@, self@.n);
                }
                Some(mul_mod(&self.g, &i_red, &self.n))
            },
        }
    }

    /// The starred non-membership witness `(d, v, pi_d, pi_g)` of `x`: with
    /// `a*x + b*set == gcd`, `d = g^a`, `v = root^b`, `pi_d` an NI-PoKE2 of `b`
    /// for `(root, v)` and `pi_g` an NI-PoE of `d^x == g * v^-1`.
    pub fn non_mem_wit_create_star(&self, x: &Natural) -> (r: Option<
        (Natural, Natural, (Natural, Natural, Integer), Natural),
    >)
        requires
            self.wf(),
        ensures
            r is Some <==> non_mem_star(self@, x@) is Some,
            r matches Some(p) ==> non_mem_star(self@, x@) == Some(
                (p.0@, p.1@, (p.2.0@, p.2.1@, p.2.2@), p.3@),
            ),
    {
        let (_, a, b) = ext_gcd(x, &self.set);
        let d = modpow_uint_int(&self.g, &a, &self.n).unwrap();
        let v = match modpow_uint_int(&self.root, &b, &self.n) {
            Some(v) => v,
            None => return None,
        };
        let k = match self.star_k(&v) {
            Some(k) => k,
            None => return None,
        };
        let pi_d = match ni_poke2_prove(&b, &self.root, &v, &self.n) {
            Some(p) => p,
            None => return None,
        };
        let pi_g = match ni_poe_prove(x, &d, &k, &self.n) {
            Some(p) => p,
            None => return None,
        };
        Some((d, v, pi_d, pi_g))
    }

    /// Checks a starred non-membership witness of `x`.
    pub fn ver_non_mem_star(
        &self,
        x: &Natural,
        pi: &(Natural, Natural, (Natural, Natural, Integer), Natural),
    ) -> (r: bool)
        requires
            self.wf(),
        ensures
            r == non_mem_star_accepts(
                self@,
                x@,
                pi.0@,
                pi.1@,
                (pi.2.0@, pi.2.1@, pi.2.2@),
                pi.3@,
            ),
    {
        let (d, v, pi_d, pi_g) = pi;
        if !ni_poke2_verify(&self.root, v, pi_d, &self.n) {
            return false;
        }
        let k = match self.star_k(v) {
            Some(k) => k,
            None => return false,
        };
        ni_poe_verify(x, d, &k, pi_g, &self.n)
    }
}

/// Every member's witness verifies: for `x` dividing `set`, the witness
/// `g^(set / x)` that `mem_wit_create` yields, raised to `x`, is the root.
pub proof fn lemma_mem_wit_verifies(acc: &Accumulator, x: nat)
    requires
        acc.wf(),
        acc.sound(),
        x > 0,
        acc@.set % x == 0,
    ensures
        mpow(mpow(acc@.g, acc@.set / x, acc@.n), x, acc@.n) == acc@.root,
{
    lemma_mpow_mpow(acc@.g, acc@.set / x, x, acc@.n);
    vstd::arithmetic::div_mod::lemma_fundamental_div_mod(acc@.set as int, x as int);
    assert((acc@.set / x) * x == x * (acc@.set / x)) by (nonlinear_arith);
}

/// Membership verification depends on the root and modulus alone: two
/// accumulators that agree on them agree on every `(w, x)`.
pub proof fn lemma_ver_mem_pure(a: &Accumulator, b: &Accumulator, w: nat, x: nat)
    requires
        a@.root == b@.root,
        a@.n == b@.n,
    ensures
        (mpow(w, x, a@.n) == a@.root) == (mpow(w, x, b@.n) == b@.root),
{
}

/// Once the fold of a batch deletion fails on a prefix, it fails on the whole.
proof fn lemma_fold_stays_none(ps: Seq<(nat, nat)>, i: int, n: nat)
    requires
        1 <= i <= ps.len(),
        batch_del_fold(ps.subrange(0, i), n) is None,
    ensures
        batch_del_fold(ps, n) is None,
    decreases ps.len() - i,
{
    if i == ps.len() {
        assert(ps.subrange(0, i) =~= ps);
    } else {
        assert(ps.subrange(0, i + 1).drop_last() =~= ps.subrange(0, i));
        lemma_fold_stays_none(ps, i + 1, n);
    }
}

} // verus!
