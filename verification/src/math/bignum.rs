//! Arbitrary-precision naturals and integers as plain limb vectors, with the
//! arithmetic itself delegated to `num_bigint`.

use num_bigint::BigUint;
use num_traits::ToPrimitive;
use vstd::arithmetic::div_mod::*;
use vstd::arithmetic::mul::*;
use vstd::prelude::*;

verus! {

/// The natural number written by little-endian base-2^32 digits.
pub open spec fn limbs_value(s: Seq<u32>) -> nat
    decreases s.len(),
{
    if s.len() == 0 {
        0
    } else {
        s[0] as nat + 0x1_0000_0000nat * limbs_value(s.drop_first())
    }
}

/// The number of bits needed to write `x` (0 for 0).
pub open spec fn bit_length(x: nat) -> nat
    decreases x,
{
    if x == 0 {
        0
    } else {
        1 + bit_length(x / 2)
    }
}

/// A natural number of any size, held as little-endian base-2^32 digits.
#[derive(Clone, Debug, PartialEq, Eq)]
pub struct BigNat {
    limbs: Vec<u32>,
}

impl View for BigNat {
    type V = nat;

    closed spec fn view(&self) -> nat {
        limbs_value(self.limbs@)
    }
}

/// A signed integer of any size: a sign and a magnitude.
#[derive(Clone, Debug, PartialEq, Eq)]
pub struct BigInteger {
    negative: bool,
    magnitude: BigNat,
}

impl View for BigInteger {
    type V = int;

    closed spec fn view(&self) -> int {
        if self.negative {
            -(self.magnitude@ as int)
        } else {
            self.magnitude@ as int
        }
    }
}

/// `BigUint + BigUint` of `num_bigint`: the sum.
#[verifier::external_body]
pub(crate) fn big_add(a: &BigNat, b: &BigNat) -> (r: BigNat)
    ensures
        r@ == a@ + b@,
{
    BigNat { limbs: (BigUint::from_slice(&a.limbs) + BigUint::from_slice(&b.limbs)).to_u32_digits() }
}

/// `BigUint - BigUint` of `num_bigint`: the difference; it panics below zero,
/// which `requires` excludes.
#[verifier::external_body]
pub(crate) fn big_sub(a: &BigNat, b: &BigNat) -> (r: BigNat)
    requires
        b@ <= a@,
    ensures
        r@ == a@ - b@,
{
    BigNat { limbs: (BigUint::from_slice(&a.limbs) - BigUint::from_slice(&b.limbs)).to_u32_digits() }
}

/// `BigUint * BigUint` of `num_bigint`: the product.
#[verifier::external_body]
pub(crate) fn big_mul(a: &BigNat, b: &BigNat) -> (r: BigNat)
    ensures
        r@ == a@ * b@,
{
    BigNat { limbs: (BigUint::from_slice(&a.limbs) * BigUint::from_slice(&b.limbs)).to_u32_digits() }
}

/// `BigUint / BigUint` of `num_bigint`: the floor quotient; it panics on a zero
/// divisor, which `requires` excludes.
#[verifier::external_body]
pub(crate) fn big_div(a: &BigNat, b: &BigNat) -> (r: BigNat)
    requires
        b@ > 0,
    ensures
        r@ == a@ / b@,
{
    BigNat { limbs: (BigUint::from_slice(&a.limbs) / BigUint::from_slice(&b.limbs)).to_u32_digits() }
}

/// `BigUint % BigUint` of `num_bigint`: the remainder; it panics on a zero
/// divisor, which `requires` excludes.
#[verifier::external_body]
pub(crate) fn big_rem(a: &BigNat, b: &BigNat) -> (r: BigNat)
    requires
        b@ > 0,
    ensures
        r@ == a@ % b@,
{
    BigNat { limbs: (BigUint::from_slice(&a.limbs) % BigUint::from_slice(&b.limbs)).to_u32_digits() }
}

/// `BigUint::one() << bits` of `num_bigint`: two to the power `bits`.
#[verifier::external_body]
pub(crate) fn big_pow2(bits: usize) -> (r: BigNat)
    ensures
        r@ == vstd::arithmetic::power2::pow2(bits as nat),
{
    BigNat { limbs: (BigUint::from(1u32) << bits).to_u32_digits() }
}

/// `BigUint::bits` of `num_bigint`: the fewest bits that express the value.
#[verifier::external_body]
pub(crate) fn big_bits(a: &BigNat) -> (r: u64)
    ensures
        r == bit_length(a@),
{
    BigUint::from_slice(&a.limbs).bits()
}

/// `BigUint <= BigUint` of `num_bigint`: the order of the two values.
#[verifier::external_body]
pub(crate) fn big_le(a: &BigNat, b: &BigNat) -> (r: bool)
    ensures
        r == (a@ <= b@),
{
    BigUint::from_slice(&a.limbs) <= BigUint::from_slice(&b.limbs)
}

/// `ToPrimitive::to_u64` of `num_bigint`: the value when it fits in a `u64`.
#[verifier::external_body]
pub(crate) fn big_to_u64(a: &BigNat) -> (r: Option<u64>)
    ensures
        r == (if a@ <= u64::MAX {
            Some(a@ as u64)
        } else {
            None::<u64>
        }),
{
    BigUint::from_slice(&a.limbs).to_u64()
}

impl BigNat {
    /// The number zero.
    pub fn zero() -> (r: Self)
        ensures
            r@ == 0,
    {
        let r = BigNat { limbs: Vec::new() };
        proof {
            assert(r.limbs@.len() == 0);
        }
        r
    }

    /// A small natural.
    pub fn from_u64(x: u64) -> (r: Self)
        ensures
            r@ == x,
    {
        let low = (x & 0xffff_ffff) as u32;
        let high = (x >> 32) as u32;
        let mut limbs: Vec<u32> = Vec::new();
        limbs.push(low);
        limbs.push(high);
        proof {
            assert(x == low as int + 0x1_0000_0000 * high as int) by (bit_vector)
                requires
                    low == (x & 0xffff_ffff) as u32,
                    high == (x >> 32) as u32,
            ;
            assert(limbs@.drop_first().drop_first() =~= Seq::<u32>::empty());
            assert(limbs_value(limbs@.drop_first()) == high as nat + 0x1_0000_0000nat * limbs_value(
                limbs@.drop_first().drop_first(),
            ));
        }
        BigNat { limbs }
    }

    /// The natural written by little-endian base-2^32 digits.
    pub fn from_u32_digits(digits: &[u32]) -> (r: Self)
        ensures
            r@ == limbs_value(digits@),
    {
        let mut limbs: Vec<u32> = Vec::with_capacity(digits.len());
        let mut i: usize = 0;
        while i < digits.len()
            invariant
                i <= digits@.len(),
                limbs@ == digits@.subrange(0, i as int),
            decreases digits@.len() - i,
        {
            limbs.push(digits[i]);
            i += 1;
            proof {
                assert(limbs@ =~= digits@.subrange(0, i as int));
            }
        }
        proof {
            assert(limbs@ =~= digits@);
        }
        BigNat { limbs }
    }

    /// The little-endian base-2^32 digits.
    pub fn to_u32_digits(&self) -> (r: Vec<u32>)
        ensures
            limbs_value(r@) == self@,
    {
        let r = self.limbs.clone();
        proof {
            assert(r@ =~= self.limbs@);
        }
        r
    }

    /// The value, when it fits in a `u64`.
    pub fn to_u64(&self) -> (r: Option<u64>)
        ensures
            r == (if self@ <= u64::MAX {
                Some(self@ as u64)
            } else {
                None::<u64>
            }),
    {
        big_to_u64(self)
    }

    /// An exact copy.
    pub fn duplicate(&self) -> (r: Self)
        ensures
            r@ == self@,
    {
        let r = BigNat { limbs: self.limbs.clone() };
        proof {
            assert(r.limbs@ =~= self.limbs@);
        }
        r
    }
}

impl BigInteger {
    /// A non-negative integer.
    pub fn from_nat(value: BigNat) -> (r: Self)
        ensures
            r@ == value@ as int,
    {
        BigInteger { negative: false, magnitude: value }
    }

    /// The negation of a natural.
    pub fn negated_nat(value: BigNat) -> (r: Self)
        ensures
            r@ == -(value@ as int),
    {
        BigInteger { negative: true, magnitude: value }
    }

    /// A small integer.
    pub fn from_i64(x: i64) -> (r: Self)
        ensures
            r@ == x as int,
    {
        if x < 0 {
            let magnitude = if x == i64::MIN {
                big_add(&BigNat::from_u64(i64::MAX as u64), &BigNat::from_u64(1))
            } else {
                BigNat::from_u64((-x) as u64)
            };
            BigInteger { negative: true, magnitude }
        } else {
            BigInteger { negative: false, magnitude: BigNat::from_u64(x as u64) }
        }
    }

    /// Whether the value is below zero.
    pub fn is_negative(&self) -> (r: bool)
        ensures
            r == (self@ < 0),
    {
        self.negative && !big_le(&self.magnitude, &BigNat::zero())
    }

    /// The absolute value.
    pub fn magnitude(&self) -> (r: BigNat)
        ensures
            r@ as int == (if self@ < 0 {
                -self@
            } else {
                self@
            }),
    {
        self.magnitude.duplicate()
    }

    /// The product with a natural.
    pub fn mul_nat(&self, factor: &BigNat) -> (r: Self)
        ensures
            r@ == self@ * factor@,
    {
        let magnitude = big_mul(&self.magnitude, factor);
        proof {
            if self.negative {
                lemma_mul_unary_negation(self.magnitude@ as int, factor@ as int);
            }
        }
        BigInteger { negative: self.negative, magnitude }
    }

    /// An exact copy.
    pub fn duplicate(&self) -> (r: Self)
        ensures
            r@ == self@,
    {
        BigInteger { negative: self.negative, magnitude: self.magnitude.duplicate() }
    }
}

/// The residue of an integer in `0..modulus` (Euclidean remainder).
pub fn centered_bigint_to_mod_q(value: &BigInteger, modulus: &BigNat) -> (r: BigNat)
    requires
        modulus@ > 0,
    ensures
        r@ as int == value@ % (modulus@ as int),
{
    let remainder = big_rem(&value.magnitude, modulus);
    if !value.negative || big_le(&remainder, &BigNat::zero()) {
        proof {
            if value.negative {
                lemma_neg_mod_zero(value.magnitude@ as int, modulus@ as int);
            }
        }
        remainder
    } else {
        proof {
            lemma_neg_mod(value.magnitude@ as int, modulus@ as int);
        }
        big_sub(modulus, &remainder)
    }
}

/// The centered representative in `(-modulus/2, modulus/2]` of a residue.
pub fn mod_q_biguint_to_centered(value: &BigNat, modulus: &BigNat) -> (r: BigInteger)
    ensures
        r@ == (if value@ <= modulus@ / 2 {
            value@ as int
        } else {
            value@ - modulus@
        }),
{
    let half = big_div(modulus, &BigNat::from_u64(2));
    if big_le(value, &half) {
        BigInteger::from_nat(value.duplicate())
    } else if big_le(value, modulus) {
        BigInteger::negated_nat(big_sub(modulus, value))
    } else {
        BigInteger::from_nat(big_sub(value, modulus))
    }
}

proof fn lemma_neg_mod_zero(x: int, m: int)
    requires
        m > 0,
        x >= 0,
        x % m == 0,
    ensures
        (-x) % m == 0,
        -(x % m) == 0,
{
    lemma_fundamental_div_mod(x, m);
    lemma_mod_multiples_basic(-(x / m), m);
    assert(-x == (-(x / m)) * m) by (nonlinear_arith)
        requires
            x == m * (x / m),
    ;
}

proof fn lemma_neg_mod(x: int, m: int)
    requires
        m > 0,
        x >= 0,
        x % m != 0,
    ensures
        (-x) % m == m - x % m,
{
    lemma_fundamental_div_mod(x, m);
    lemma_mod_bound(x, m);
    let q = x / m;
    let r = x % m;
    assert(-x == m * (-q - 1) + (m - r)) by (nonlinear_arith)
        requires
            x == m * q + r,
    ;
    lemma_fundamental_div_mod_converse(-x, m, -q - 1, m - r);
}

} // verus!
