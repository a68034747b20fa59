//! Arbitrary-precision naturals and integers held as big-endian bytes, with the
//! arithmetic that the accumulator needs supplied by `num-bigint-dig`.

use vstd::prelude::*;
use vstd::arithmetic::power::pow;
use num_bigint_dig::traits::{ExtendedGcd, ModInverse};
use num_bigint_dig::{BigInt, BigUint, Sign};
use num_integer::Integer as _;

verus! {

/// The number that a big-endian byte string denotes.
pub open spec fn be_value(s: Seq<u8>) -> nat
    decreases s.len(),
{
    if s.len() == 0 {
        0
    } else {
        be_value(s.drop_last()) * 256 + s.last() as nat
    }
}

/// The minimal big-endian encoding of `v` (a single zero byte for zero).
pub open spec fn be_bytes(v: nat) -> Seq<u8>
    decreases v,
{
    if v < 256 {
        seq![v as u8]
    } else {
        be_bytes(v / 256).push((v % 256) as u8)
    }
}

/// Greatest common divisor, by Euclid's rule.
pub open spec fn gcd(a: nat, b: nat) -> nat
    decreases b,
{
    if b == 0 {
        a
    } else {
        gcd(b, a % b)
    }
}

/// `i` is an inverse of `b` modulo `n`.
pub open spec fn is_inverse(b: int, i: int, n: nat) -> bool {
    (b * i) % (n as int) == 1
}

/// `b` has an inverse modulo `n`.
pub open spec fn is_unit(b: nat, n: nat) -> bool {
    exists|i: int| is_inverse(b as int, i, n)
}

/// The inverse of `b` modulo `n` in `[0, n)`, where there is one.
pub open spec fn inv_mod(b: nat, n: nat) -> nat {
    choose|i: nat| i < n && is_inverse(b as int, i as int, n)
}

/// `b^e mod n` for a signed exponent: a negative power is a power of the inverse.
pub open spec fn spow(b: nat, e: int, n: nat) -> nat {
    if e >= 0 {
        (pow(b as int, e as nat) % (n as int)) as nat
    } else {
        (pow(inv_mod(b, n) as int, (-e) as nat) % (n as int)) as nat
    }
}

/// `b^e mod n` for an unsigned exponent.
pub open spec fn mpow(b: nat, e: nat, n: nat) -> nat {
    (pow(b as int, e) % (n as int)) as nat
}

/// Appends `src` to `dst`.
pub fn append_bytes(dst: &mut Vec<u8>, src: &[u8])
    ensures
        final(dst)@ == old(dst)@ + src@,
{
    let mut i: usize = 0;
    while i < src.len()
        invariant
            0 <= i <= src@.len(),
            dst@ == old(dst)@ + src@.subrange(0, i as int),
        decreases src@.len() - i,
    {
        dst.push(src[i]);
        i = i + 1;
        assert(dst@ =~= old(dst)@ + src@.subrange(0, i as int));
    }
    assert(src@.subrange(0, i as int) =~= src@);
}

/// An unbounded natural number, stored as big-endian bytes.
pub struct Natural {
    pub(crate) bytes: Vec<u8>,
}

/// An unbounded signed integer: a sign and a magnitude.
pub struct Integer {
    neg: bool,
    mag: Natural,
}

impl View for Natural {
    type V = nat;

    closed spec fn view(&self) -> nat {
        be_value(self.bytes@)
    }
}

impl View for Integer {
    type V = int;

    closed spec fn view(&self) -> int {
        if self.neg {
            -(self.mag@ as int)
        } else {
            self.mag@ as int
        }
    }
}

impl Integer {
    /// The integer with the given sign and magnitude (a negative zero is zero).
    pub fn new(neg: bool, mag: Natural) -> (r: Integer)
        ensures
            r@ == (if neg { -(mag@ as int) } else { mag@ as int }),
    {
        Integer { neg, mag }
    }

    /// A non-negative integer.
    pub fn from_natural(mag: Natural) -> (r: Integer)
        ensures
            r@ == mag@ as int,
    {
        Integer { neg: false, mag }
    }

    /// Whether this integer is below zero.
    pub fn is_negative(&self) -> (r: bool)
        ensures
            r == (self@ < 0),
    {
        self.neg && !self.mag.is_zero()
    }

    /// The absolute value.
    pub fn magnitude(&self) -> (r: &Natural)
        ensures
            r@ as int == (if self@ < 0 { -self@ } else { self@ }),
    {
        &self.mag
    }
}

impl Clone for Natural {
    fn clone(&self) -> (r: Natural)
        ensures
            r@ == self@,
    {
        Natural { bytes: self.bytes.clone() }
    }
}

impl Clone for Integer {
    fn clone(&self) -> (r: Integer)
        ensures
            r@ == self@,
    {
        Integer { neg: self.neg, mag: self.mag.clone() }
    }
}

impl Natural {
    /// The number whose big-endian encoding is `bytes` (leading zeros allowed).
    pub fn from_bytes_be(bytes: &[u8]) -> (r: Natural)
        ensures
            r@ == be_value(bytes@),
    {
        let mut v: Vec<u8> = Vec::new();
        append_bytes(&mut v, bytes);
        assert(v@ =~= bytes@);
        Natural { bytes: v }
    }

    /// The number zero.
    pub fn zero() -> (r: Natural)
        ensures
            r@ == 0,
    {
        Natural { bytes: Vec::new() }
    }

    /// The number that the first `len` bytes of `bytes` encode, big-endian.
    pub fn from_prefix(bytes: &Vec<u8>, len: usize) -> (r: Natural)
        requires
            len <= bytes@.len(),
        ensures
            r@ == be_value(bytes@.subrange(0, len as int)),
    {
        let mut v: Vec<u8> = Vec::new();
        let mut i: usize = 0;
        while i < len
            invariant
                0 <= i <= len <= bytes@.len(),
                v@ == bytes@.subrange(0, i as int),
            decreases len - i,
        {
            v.push(bytes[i]);
            i = i + 1;
            assert(v@ =~= bytes@.subrange(0, i as int));
        }
        Natural { bytes: v }
    }

    /// Whether this number is zero.
    pub fn is_zero(&self) -> (r: bool)
        ensures
            r == (self@ == 0),
    {
        nat_eq(self, &Natural::zero())
    }

    /// The number one.
    pub fn one() -> (r: Natural)
        ensures
            r@ == 1,
    {
        let bytes: Vec<u8> = vec![1u8];
        proof {
            assert(bytes@.drop_last() =~= Seq::<u8>::empty());
            reveal_with_fuel(be_value, 2);
        }
        Natural { bytes }
    }

    /// The minimal big-endian encoding of this number.
    pub fn to_bytes_be(&self) -> (r: Vec<u8>)
        ensures
            r@ == be_bytes(self@),
    {
        canonical_bytes(self)
    }
}

} // verus!

verus! {

/// Relies on `BigUint::to_bytes_be`: the minimal big-endian encoding.
#[verifier::external_body]
pub(crate) fn canonical_bytes(a: &Natural) -> (r: Vec<u8>)
    ensures
        r@ == be_bytes(a@),
{
    BigUint::from_bytes_be(&a.bytes).to_bytes_be()
}

/// Relies on `BigUint`'s `*`: the product.
#[verifier::external_body]
pub(crate) fn nat_mul(a: &Natural, b: &Natural) -> (r: Natural)
    ensures
        r@ == a@ * b@,
{
    let p = BigUint::from_bytes_be(&a.bytes) * BigUint::from_bytes_be(&b.bytes);
    Natural { bytes: p.to_bytes_be() }
}

/// Relies on `Integer::div_rem` for `BigUint`: quotient and remainder.
#[verifier::external_body]
pub(crate) fn nat_div_rem(a: &Natural, b: &Natural) -> (r: (Natural, Natural))
    requires
        b@ > 0,
    ensures
        r.0@ == a@ / b@,
        r.1@ == a@ % b@,
{
    let (q, m) = BigUint::from_bytes_be(&a.bytes).div_rem(&BigUint::from_bytes_be(&b.bytes));
    (Natural { bytes: q.to_bytes_be() }, Natural { bytes: m.to_bytes_be() })
}

/// Relies on `BigUint::modpow`, which panics on a zero modulus.
#[verifier::external_body]
pub(crate) fn nat_modpow(b: &Natural, e: &Natural, n: &Natural) -> (r: Natural)
    requires
        n@ > 0,
    ensures
        r@ == mpow(b@, e@, n@),
{
    let m = BigUint::from_bytes_be(&n.bytes);
    let p = BigUint::from_bytes_be(&b.bytes).modpow(&BigUint::from_bytes_be(&e.bytes), &m);
    Natural { bytes: p.to_bytes_be() }
}

/// Relies on `Integer::gcd` for `BigUint`: the greatest common divisor.
#[verifier::external_body]
pub(crate) fn nat_gcd(a: &Natural, b: &Natural) -> (r: Natural)
    ensures
        r@ == gcd(a@, b@),
{
    let g = BigUint::from_bytes_be(&a.bytes).gcd(&BigUint::from_bytes_be(&b.bytes));
    Natural { bytes: g.to_bytes_be() }
}

/// Relies on `BigUint`'s `==`: equality of the numbers.
#[verifier::external_body]
pub(crate) fn nat_eq(a: &Natural, b: &Natural) -> (r: bool)
    ensures
        r == (a@ == b@),
{
    BigUint::from_bytes_be(&a.bytes) == BigUint::from_bytes_be(&b.bytes)
}

/// The Bezout coefficients that `ExtendedGcd::extended_gcd` picks for `(a, b)`.
pub uninterp spec fn bezout_of(a: nat, b: nat) -> (int, int);

/// Relies on `ExtendedGcd::extended_gcd` for `BigUint`: the greatest common
/// divisor `z` with Bezout coefficients `s`, `t` such that `z == s*a + t*b`,
/// which depend on `a` and `b` alone.
#[verifier::external_body]
pub(crate) fn ext_gcd(a: &Natural, b: &Natural) -> (r: (Natural, Integer, Integer))
    ensures
        r.0@ == gcd(a@, b@),
        r.1@ == bezout_of(a@, b@).0,
        r.2@ == bezout_of(a@, b@).1,
        r.1@ * a@ + r.2@ * b@ == r.0@,
{
    let (z, s, t) = BigUint::from_bytes_be(&a.bytes).extended_gcd(&BigUint::from_bytes_be(&b.bytes));
    let (_, z) = z.to_bytes_be();
    let (ss, s) = s.to_bytes_be();
    let (ts, t) = t.to_bytes_be();
    (
        Natural { bytes: z },
        Integer { neg: ss == Sign::Minus, mag: Natural { bytes: s } },
        Integer { neg: ts == Sign::Minus, mag: Natural { bytes: t } },
    )
}

/// Relies on `ModInverse::mod_inverse` for `BigUint`: an inverse of `b` modulo
/// `n`, or `None` where there is none.
#[verifier::external_body]
pub(crate) fn nat_mod_inverse(b: &Natural, n: &Natural) -> (r: Option<Integer>)
    requires
        n@ > 1,
    ensures
        r.is_some() == is_unit(b@, n@),
        r matches Some(i) ==> is_inverse(b@ as int, i@, n@),
{
    let m = BigUint::from_bytes_be(&n.bytes);
    match BigUint::from_bytes_be(&b.bytes).mod_inverse(&m) {
        Some(i) => {
            let (s, i) = i.to_bytes_be();
            Some(Integer { neg: s == Sign::Minus, mag: Natural { bytes: i } })
        },
        None => None,
    }
}

/// Relies on `Integer::div_mod_floor` for `BigInt`: floored division, so that
/// the remainder lies in `[0, l)`.
#[verifier::external_body]
pub(crate) fn int_div_mod_floor(x: &Integer, l: &Natural) -> (r: (Integer, Natural))
    requires
        l@ > 0,
    ensures
        r.0@ * l@ + r.1@ == x@,
        r.1@ < l@,
{
    let sign = if x.neg { Sign::Minus } else { Sign::Plus };
    let v = BigInt::from_bytes_be(sign, &x.mag.bytes);
    let (q, m) = v.div_mod_floor(&BigInt::from_bytes_be(Sign::Plus, &l.bytes));
    let (qs, q) = q.to_bytes_be();
    let (_, m) = m.to_bytes_be();
    (Integer { neg: qs == Sign::Minus, mag: Natural { bytes: q } }, Natural { bytes: m })
}

} // verus!
