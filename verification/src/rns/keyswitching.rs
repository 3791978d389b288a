//! Key switching: gadget decomposition of a polynomial into balanced digits,
//! key-switching keys over the ciphertext modulus or over an extended
//! evaluation basis, and the switch itself.

use crate::math::arith::has_inverse;
use crate::math::dft::{lemma_sum_ext, sum_to};
use crate::math::bignum::{
    big_add,
    big_pow2,
    big_div,
    big_mul,
    big_rem,
    big_to_u64,
    bit_length,
    centered_bigint_to_mod_q,
    mod_q_biguint_to_centered,
    BigInteger,
    BigNat,
};
use crate::poly::{galois_coeff, ModularPolynomial};
use vstd::arithmetic::div_mod::*;
use vstd::arithmetic::mul::*;
use vstd::arithmetic::power::*;
use vstd::arithmetic::power2::*;
use vstd::prelude::*;

use super::coprime::lemma_crt_unique;
use super::basis::{crt_invertible, lemma_mod_product_then_modulus, lemma_product_positive, mod_inv_u64, moduli_product, rns_basis_ok, RnsContext, RnsPrime};
use super::ciphertexts::{lemma_prefix_keeps_wf, RnsCiphertext, RnsQuadraticCiphertext};
use super::keys::{
    is_gaussian_lift,
    is_signed_lift,
    is_ternary_lift,
    sample_error_poly,
    sample_uniform_poly,
    ErrorSampler,
    RnsPublicKey,
    RnsSecretKey,
};
use super::ops::{centered, encrypt_rns, is_encryption, lemma_divide_by_dropped, lemma_shape_wf, sub_mod_u64};
use super::polynomial::{lemma_prefix_residues, prod_coeff, RnsPolynomial};

verus! {

/// A key-switching key: one ciphertext per gadget digit.
#[derive(Clone, Debug)]
pub struct RnsKeySwitchingKey {
    pub ksk: Vec<RnsCiphertext>,
    pub decomp_bits: usize,
    pub level: usize,
    pub aux_level_count: usize,
}

impl RnsKeySwitchingKey {
    /// Every digit ciphertext is well-formed and spans the key's levels plus
    /// its auxiliary primes.
    pub open spec fn wf(&self) -> bool {
        forall|i: int|
            0 <= i < self.ksk@.len() ==> {
                &&& (#[trigger] self.ksk@[i]).wf()
                &&& self.ksk@[i].level == self.level + self.aux_level_count
            }
    }

    /// Every digit ciphertext of `r` is the corresponding one of `self`
    /// restricted to its first `count` residues.
    pub open spec fn is_prefix_of(r: Self, other: Self, count: int) -> bool {
        &&& r.ksk@.len() == other.ksk@.len()
        &&& forall|i: int|
            0 <= i < r.ksk@.len() ==> {
                &&& (#[trigger] r.ksk@[i]).c0.spec_view() == other.ksk@[i].c0.spec_view().subrange(0, count)
                &&& r.ksk@[i].c1.spec_view() == other.ksk@[i].c1.spec_view().subrange(0, count)
                &&& r.ksk@[i].scale_bits == other.ksk@[i].scale_bits
            }
    }

    /// An exact copy.
    fn duplicate(&self) -> (r: Self)
        requires
            self.wf(),
        ensures
            r.wf(),
            Self::is_prefix_of(r, *self, self.level + self.aux_level_count + 1),
            r.decomp_bits == self.decomp_bits,
            r.level == self.level,
            r.aux_level_count == self.aux_level_count,
    {
        let mut ksk: Vec<RnsCiphertext> = Vec::with_capacity(self.ksk.len());
        let mut i: usize = 0;
        while i < self.ksk.len()
            invariant
                self.wf(),
                i <= self.ksk@.len(),
                ksk@.len() == i,
                forall|j: int|
                    0 <= j < i ==> {
                        &&& (#[trigger] ksk@[j]).wf()
                        &&& ksk@[j].level == self.level + self.aux_level_count
                        &&& ksk@[j].c0.spec_view() == self.ksk@[j].c0.spec_view().subrange(
                            0,
                            self.level + self.aux_level_count + 1,
                        )
                        &&& ksk@[j].c1.spec_view() == self.ksk@[j].c1.spec_view().subrange(
                            0,
                            self.level + self.aux_level_count + 1,
                        )
                        &&& ksk@[j].scale_bits == self.ksk@[j].scale_bits
                    },
            decreases self.ksk@.len() - i,
        {
            let ct = &self.ksk[i];
            assert(ct.wf());
            ksk.push(ct.truncate_levels(ct.c0.levels()));
            i += 1;
        }
        Self { ksk, decomp_bits: self.decomp_bits, level: self.level, aux_level_count: self.aux_level_count }
    }

    /// The key one level lower: every digit ciphertext loses its last residue.
    pub fn drop_last_level(&self) -> (r: Self)
        requires
            self.wf(),
            self.level > 0,
            self.aux_level_count == 0,
        ensures
            r.wf(),
            Self::is_prefix_of(r, *self, self.level as int),
            r.decomp_bits == self.decomp_bits,
            r.level == self.level - 1,
            r.aux_level_count == 0,
    {
        let mut ksk: Vec<RnsCiphertext> = Vec::with_capacity(self.ksk.len());
        let mut i: usize = 0;
        while i < self.ksk.len()
            invariant
                self.wf(),
                self.level > 0,
                self.aux_level_count == 0,
                i <= self.ksk@.len(),
                ksk@.len() == i,
                forall|j: int|
                    0 <= j < i ==> {
                        &&& (#[trigger] ksk@[j]).wf()
                        &&& ksk@[j].level == self.level - 1
                        &&& ksk@[j].c0.spec_view() == self.ksk@[j].c0.spec_view().subrange(0, self.level as int)
                        &&& ksk@[j].c1.spec_view() == self.ksk@[j].c1.spec_view().subrange(0, self.level as int)
                        &&& ksk@[j].scale_bits == self.ksk@[j].scale_bits
                    },
            decreases self.ksk@.len() - i,
        {
            let ct = &self.ksk[i];
            assert(ct.wf());
            let dropped = ct.drop_last_level();
            proof {
                assert(ct.c0.spec_view().drop_last() =~= ct.c0.spec_view().subrange(0, self.level as int));
                assert(ct.c1.spec_view().drop_last() =~= ct.c1.spec_view().subrange(0, self.level as int));
            }
            ksk.push(dropped);
            i += 1;
        }
        Self { ksk, decomp_bits: self.decomp_bits, level: self.level - 1, aux_level_count: 0 }
    }

    /// The key restricted to its first `level_count` levels.
    pub fn truncate_levels(&self, level_count: usize) -> (r: Self)
        requires
            self.wf(),
            level_count > 0,
            level_count <= self.level + 1,
            level_count < self.level + 1 ==> self.aux_level_count == 0,
        ensures
            r.wf(),
            Self::is_prefix_of(r, *self, level_count + self.aux_level_count),
            r.decomp_bits == self.decomp_bits,
            r.level == level_count - 1,
            r.aux_level_count == self.aux_level_count,
    {
        let mut truncated = self.duplicate();
        while truncated.level >= level_count
            invariant
                self.wf(),
                truncated.wf(),
                level_count > 0,
                level_count <= truncated.level + 1,
                truncated.level <= self.level,
                truncated.level < self.level ==> self.aux_level_count == 0,
                level_count < self.level + 1 ==> self.aux_level_count == 0,
                truncated.aux_level_count == self.aux_level_count,
                truncated.decomp_bits == self.decomp_bits,
                Self::is_prefix_of(truncated, *self, truncated.level + self.aux_level_count + 1),
            decreases truncated.level,
        {
            let next = truncated.drop_last_level();
            proof {
                assert forall|i: int| 0 <= i < next.ksk@.len() implies {
                    &&& (#[trigger] next.ksk@[i]).c0.spec_view() == self.ksk@[i].c0.spec_view().subrange(
                        0,
                        next.level + self.aux_level_count + 1,
                    )
                    &&& next.ksk@[i].c1.spec_view() == self.ksk@[i].c1.spec_view().subrange(
                        0,
                        next.level + self.aux_level_count + 1,
                    )
                    &&& next.ksk@[i].scale_bits == self.ksk@[i].scale_bits
                } by {
                    assert(self.aux_level_count == 0);
                    assert(next.level + 1 == truncated.level);
                    let t0 = truncated.ksk@[i].c0.spec_view();
                    let t1 = truncated.ksk@[i].c1.spec_view();
                    assert(next.ksk@[i].c0.spec_view() == t0.subrange(0, truncated.level as int));
                    assert(t0 == self.ksk@[i].c0.spec_view().subrange(0, truncated.level + 1));
                    assert(next.ksk@[i].c1.spec_view() == t1.subrange(0, truncated.level as int));
                    assert(t1 == self.ksk@[i].c1.spec_view().subrange(0, truncated.level + 1));
                    assert(self.ksk@[i].wf());
                    assert(self.ksk@[i].c0.spec_view().len() == self.level + 1);
                    assert(next.ksk@[i].c0.spec_view() =~= self.ksk@[i].c0.spec_view().subrange(
                        0,
                        next.level + self.aux_level_count + 1,
                    ));
                    assert(next.ksk@[i].c1.spec_view() =~= self.ksk@[i].c1.spec_view().subrange(
                        0,
                        next.level + self.aux_level_count + 1,
                    ));
                }
            }
            truncated = next;
        }
        truncated
    }
}

/// Number of base-`2^decomp_bits` digits needed for a modulus of
/// `total_modulus_bits` bits: `ceil(total_modulus_bits / decomp_bits)`.
pub(crate) fn num_decomp_digits(total_modulus_bits: u64, decomp_bits: usize) -> (r: usize)
    requires
        decomp_bits > 0,
        total_modulus_bits + decomp_bits <= usize::MAX,
    ensures
        r == (total_modulus_bits + decomp_bits - 1) / (decomp_bits as int),
{
    let bits: usize = total_modulus_bits as usize;
    assert(bits == total_modulus_bits);
    (bits + decomp_bits - 1) / decomp_bits
}

/// Remainder of truncating division: it takes the sign of the dividend.
pub open spec fn trunc_rem(v: int, base: int) -> int {
    if v >= 0 {
        v % base
    } else {
        -((-v) % base)
    }
}

/// The balanced digit of `v`: its truncated remainder modulo `base`, moved
/// into `[-base/2, base/2)`.
pub open spec fn balanced_digit(v: int, base: int) -> int {
    let r = trunc_rem(v, base);
    if r >= base / 2 {
        r - base
    } else if r < -(base / 2) {
        r + base
    } else {
        r
    }
}

/// What remains of `v` after removing its first `i` balanced digits.
pub open spec fn balanced_rest(v: int, base: int, i: nat) -> int
    decreases i,
{
    if i == 0 {
        v
    } else {
        let prev = balanced_rest(v, base, (i - 1) as nat);
        (prev - balanced_digit(prev, base)) / base
    }
}

/// The first `count` balanced base-`base` digits of `v`, least significant first.
pub open spec fn balanced_digits(v: int, base: int, count: nat) -> Seq<int> {
    Seq::new(count, |i: int| balanced_digit(balanced_rest(v, base, i as nat), base))
}

/// One balanced digit: the digit and the exact quotient that remains.
proof fn lemma_balanced_step(v: int, base: int, m: nat, q: nat, r: nat, negative: bool)
    requires
        base >= 2,
        v == (if negative { -(m as int) } else { m as int }),
        m == base * q + r,
        r < base,
    ensures
        balanced_digit(v, base) == (if !negative {
            if r >= base / 2 { r - base } else { r as int }
        } else {
            if r > base / 2 { base - r } else { -(r as int) }
        }),
        (v - balanced_digit(v, base)) / base == (if !negative {
            if r >= base / 2 { q + 1int } else { q as int }
        } else {
            if r > base / 2 { -(q + 1) } else { -(q as int) }
        }),
        v - balanced_digit(v, base) == base * ((v - balanced_digit(v, base)) / base),
{
    lemma_mul_is_commutative(base, q as int);
    lemma_fundamental_div_mod_converse(m as int, base, q as int, r as int);
    let d = balanced_digit(v, base);
    if !negative {
        assert(trunc_rem(v, base) == r);
        if r >= base / 2 {
            assert(v - d == (q + 1) * base) by (nonlinear_arith)
                requires
                    v == base * q + r,
                    d == r - base,
            ;
            lemma_div_multiples_vanish((q + 1) as int, base);
            lemma_mul_is_commutative((q + 1) as int, base);
        } else {
            assert(v - d == q * base) by (nonlinear_arith)
                requires
                    v == base * q + r,
                    d == r,
            ;
            lemma_div_multiples_vanish(q as int, base);
            lemma_mul_is_commutative(q as int, base);
        }
    } else {
        if m == 0 {
            assert(v == 0);
            assert(trunc_rem(v, base) == 0);
            assert(q == 0 && r == 0) by (nonlinear_arith)
                requires
                    m == base * q + r,
                    m == 0,
                    base >= 2,
            ;
            assert(v - d == 0);
            lemma_div_multiples_vanish(0, base);
        } else {
            assert(trunc_rem(v, base) == -(r as int));
            if r > base / 2 {
                assert(v - d == (-(q + 1)) * base) by (nonlinear_arith)
                    requires
                        v == -(base * q + r),
                        d == base - r,
                ;
                lemma_div_multiples_vanish(-(q + 1), base);
                lemma_mul_is_commutative(-(q + 1), base);
            } else {
                assert(v - d == (-q) * base) by (nonlinear_arith)
                    requires
                        v == -(base * q + r),
                        d == -(r as int),
                ;
                lemma_div_multiples_vanish(-q, base);
                lemma_mul_is_commutative(-q, base);
            }
        }
    }
}

/// A balanced digit of `v`, and the quotient left after removing it, are no
/// larger than `v` in magnitude (for an even base).
proof fn lemma_balanced_step_bound(v: int, base: int, bound: int)
    requires
        base >= 2,
        base % 2 == 0,
        -bound <= v <= bound,
    ensures
        -bound <= balanced_digit(v, base) <= bound,
        -bound <= (v - balanced_digit(v, base)) / base <= bound,
{
    let m: nat = if v < 0 { (-v) as nat } else { v as nat };
    lemma_fundamental_div_mod(m as int, base);
    lemma_mod_bound(m as int, base);
    lemma_div_pos_is_pos(m as int, base);
    let q = (m as int / base) as nat;
    let r = (m as int % base) as nat;
    lemma_balanced_step(v, base, m, q, r, v < 0);
    assert(m >= q + r) by (nonlinear_arith)
        requires
            m == base * q + r,
            base >= 2,
    ;
    if r >= 1 {
        assert(m >= 2 * q + 1) by (nonlinear_arith)
            requires
                m == base * q + r,
                base >= 2,
                r >= 1,
        ;
    }
}

/// The rests of the balanced expansion of `v` stay within `v`'s magnitude.
proof fn lemma_balanced_rest_bound(v: int, base: int, bound: int, i: nat)
    requires
        base >= 2,
        base % 2 == 0,
        -bound <= v <= bound,
    ensures
        -bound <= balanced_rest(v, base, i) <= bound,
    decreases i,
{
    if i > 0 {
        lemma_balanced_rest_bound(v, base, bound, (i - 1) as nat);
        lemma_balanced_step_bound(balanced_rest(v, base, (i - 1) as nat), base, bound);
    }
}

/// Every balanced digit of `v` is within `v`'s magnitude.
pub proof fn lemma_balanced_digits_bound(v: int, base: int, bound: int, count: nat)
    requires
        base >= 2,
        base % 2 == 0,
        -bound <= v <= bound,
    ensures
        forall|i: int| 0 <= i < count ==> -bound <= #[trigger] balanced_digits(v, base, count)[i] <= bound,
{
    assert forall|i: int| 0 <= i < count implies -bound <= #[trigger] balanced_digits(v, base, count)[i] <= bound by {
        lemma_balanced_rest_bound(v, base, bound, i as nat);
        lemma_balanced_step_bound(balanced_rest(v, base, i as nat), base, bound);
    }
}

/// `sum_i digits[i] * base^i`: the value a digit sequence stands for.
pub open spec fn gadget_sum(digits: Seq<int>, base: int) -> int {
    sum_to(|i: int| digits[i] * pow(base, i as nat), digits.len())
}

/// Every balanced digit is congruent to what it is taken of: `v - digit` is
/// an exact multiple of the base.
pub proof fn lemma_balanced_digit_exact(v: int, base: int)
    requires
        base >= 2,
    ensures
        v - balanced_digit(v, base) == base * ((v - balanced_digit(v, base)) / base),
{
    let m: nat = if v < 0 { (-v) as nat } else { v as nat };
    lemma_fundamental_div_mod(m as int, base);
    lemma_mod_bound(m as int, base);
    lemma_div_pos_is_pos(m as int, base);
    lemma_balanced_step(v, base, m, (m as int / base) as nat, (m as int % base) as nat, v < 0);
}

/// The balanced digits of `v` and the rest they leave reconstruct `v`:
/// `v == sum_(i<n) digit_i * base^i + base^n * rest_n`.
pub proof fn lemma_balanced_reconstruct(v: int, base: int, n: nat)
    requires
        base >= 2,
    ensures
        v == gadget_sum(balanced_digits(v, base, n), base) + pow(base, n) * balanced_rest(v, base, n),
    decreases n,
{
    if n == 0 {
        assert(balanced_digits(v, base, 0).len() == 0);
        lemma_pow0(base);
    } else {
        let p = (n - 1) as nat;
        lemma_balanced_reconstruct(v, base, p);
        let short = balanced_digits(v, base, p);
        let long = balanced_digits(v, base, n);
        let f = |i: int| short[i] * pow(base, i as nat);
        let g = |i: int| long[i] * pow(base, i as nat);
        assert forall|i: int| 0 <= i < p implies #[trigger] f(i) == g(i) by {
            assert(short[i] == long[i]);
        }
        lemma_sum_ext(f, g, p);
        let rp = balanced_rest(v, base, p);
        let d = balanced_digit(rp, base);
        lemma_balanced_digit_exact(rp, base);
        assert(balanced_rest(v, base, n) == (rp - d) / base);
        assert(long[p as int] == d);
        lemma_pow_positive(base, p);
        reveal(pow);
        assert(pow(base, n) == base * pow(base, p));
        let x = pow(base, p);
        let t = (rp - d) / base;
        assert(x * rp == x * d + (base * x) * t) by (nonlinear_arith)
            requires
                rp - d == base * t,
        ;
    }
}

/// The first `levels` balanced base-`2^decomp_bits` digits of `value`.
pub(crate) fn balanced_digits_bigint(value: &BigInteger, levels: usize, decomp_bits: usize) -> (r: Vec<i64>)
    requires
        1 <= decomp_bits <= 62,
    ensures
        r@.len() == levels,
        forall|i: int|
            0 <= i < levels ==> #[trigger] r@[i] as int == balanced_digits(value@, pow2(decomp_bits as nat) as int, levels as nat)[i],
{
    let ghost base_int = pow2(decomp_bits as nat) as int;
    let base_u64: u64 = 1u64 << decomp_bits as u64;
    proof {
        lemma_pow2_fits(decomp_bits as nat);
        vstd::bits::lemma_u64_shl_is_mul(1, decomp_bits as u64);
    }
    let half_u64 = base_u64 / 2;
    let base = BigNat::from_u64(base_u64);
    let one = BigNat::from_u64(1);
    let mut current = value.duplicate();
    let mut digits: Vec<i64> = Vec::with_capacity(levels);
    let mut i: usize = 0;
    while i < levels
        invariant
            base_int == base_u64 as int,
            2 <= base_u64 <= 0x4000_0000_0000_0000,
            half_u64 == base_u64 / 2,
            base@ == base_u64,
            one@ == 1,
            i <= levels,
            digits@.len() == i,
            current@ == balanced_rest(value@, base_int, i as nat),
            forall|j: int|
                0 <= j < i ==> #[trigger] digits@[j] as int == balanced_digit(balanced_rest(value@, base_int, j as nat), base_int),
        decreases levels - i,
    {
        let negative = current.is_negative();
        let magnitude = current.magnitude();
        let quotient = big_div(&magnitude, &base);
        let remainder_big = big_rem(&magnitude, &base);
        let remainder = match big_to_u64(&remainder_big) {
            Some(x) => x,
            None => {
                proof {
                    lemma_mod_bound(magnitude@ as int, base@ as int);
                    assert(false);
                }
                0
            },
        };
        proof {
            lemma_fundamental_div_mod(magnitude@ as int, base@ as int);
            lemma_mod_bound(magnitude@ as int, base@ as int);
            lemma_balanced_step(current@, base_int, magnitude@, quotient@, remainder as nat, negative);
        }
        let digit: i64;
        let next: BigInteger;
        if !negative {
            if remainder >= half_u64 {
                digit = remainder as i64 - base_u64 as i64;
                next = BigInteger::from_nat(big_add(&quotient, &one));
            } else {
                digit = remainder as i64;
                next = BigInteger::from_nat(quotient);
            }
        } else {
            if remainder > half_u64 {
                digit = base_u64 as i64 - remainder as i64;
                next = BigInteger::negated_nat(big_add(&quotient, &one));
            } else {
                digit = -(remainder as i64);
                next = BigInteger::negated_nat(quotient);
            }
        }
        digits.push(digit);
        current = next;
        i += 1;
    }
    proof {
        assert forall|j: int| 0 <= j < levels implies #[trigger] digits@[j] as int == balanced_digits(
            value@,
            base_int,
            levels as nat,
        )[j] by {}
    }
    digits
}

/// `2^n` for `1 <= n <= 62` lies in `2..=2^62`.
proof fn lemma_pow2_fits(n: nat)
    requires
        1 <= n <= 62,
    ensures
        2 <= pow2(n) <= 0x4000_0000_0000_0000,
{
    lemma2_to64();
    lemma2_to64_rest();
    assert(pow2(0) == 1);
    assert(pow2(62) == 0x4000_0000_0000_0000);
    lemma_pow2_strictly_increases(0, n);
    if n < 62 {
        lemma_pow2_strictly_increases(n, 62);
    }
}


/// `values` are the Chinese-remainder reconstructions of the coefficients of
/// `p` modulo the product of `moduli`.
pub open spec fn is_crt_of(values: Seq<nat>, p: RnsPolynomial, moduli: Seq<u64>) -> bool {
    &&& values.len() == p.spec_degree()
    &&& forall|k: int|
        0 <= k < values.len() ==> {
            &&& #[trigger] values[k] < moduli_product(moduli)
            &&& forall|l: int| 0 <= l < moduli.len() ==> values[k] % (#[trigger] moduli[l] as nat) == p.coeff(l, k)
        }
}

/// The values of a vector of naturals.
pub open spec fn nat_values(v: Seq<BigNat>) -> Seq<nat> {
    v.map_values(|b: BigNat| b@)
}

/// The CRT reconstruction of `poly` in `context`, as naturals.
fn reconstruct(poly: &RnsPolynomial, context: &RnsContext) -> (r: Vec<BigNat>)
    requires
        context.wf(),
        crt_invertible(context.spec_moduli()),
        poly.has_shape(context.spec_degree(), context.spec_moduli()),
    ensures
        is_crt_of(nat_values(r@), *poly, context.spec_moduli()),
        r@.len() == context.spec_degree(),
{
    let r = poly.reconstruct_coefficients(context);
    proof {
        context.lemma_context_facts();
        let values = nat_values(r@);
        assert forall|k: int| 0 <= k < values.len() implies {
            &&& #[trigger] values[k] < moduli_product(context.spec_moduli())
            &&& forall|l: int|
                0 <= l < context.spec_moduli().len() ==> values[k] % (#[trigger] context.spec_moduli()[l] as nat)
                    == poly.coeff(l, k)
        } by {
            assert(values[k] == r@[k]@);
        }
    }
    r
}

/// `r` is `a`, whose residues are over `source_moduli`, lifted to
/// `target_moduli` through the centered CRT values of its coefficients.
pub open spec fn is_lift_of(r: RnsPolynomial, a: RnsPolynomial, source_moduli: Seq<u64>, target_moduli: Seq<u64>) -> bool {
    exists|crt: Seq<nat>|
        #[trigger] is_crt_of(crt, a, source_moduli) && forall|l: int, k: int|
            0 <= l < target_moduli.len() && 0 <= k < a.spec_degree() ==> #[trigger] r.coeff(l, k) as int == centered(
                crt[k] as int,
                moduli_product(source_moduli) as int,
            ) % (target_moduli[l] as int)
}

/// The centered representatives of reconstructed coefficients.
fn centered_coeffs(values: &Vec<BigNat>, modulus: &BigNat) -> (r: Vec<BigInteger>)
    ensures
        r@.len() == values@.len(),
        forall|k: int| 0 <= k < values@.len() ==> (#[trigger] r@[k])@ == centered(values@[k]@ as int, modulus@ as int),
{
    let mut out: Vec<BigInteger> = Vec::with_capacity(values.len());
    let mut k: usize = 0;
    while k < values.len()
        invariant
            k <= values@.len(),
            out@.len() == k,
            forall|j: int| 0 <= j < k ==> (#[trigger] out@[j])@ == centered(values@[j]@ as int, modulus@ as int),
        decreases values@.len() - k,
    {
        out.push(mod_q_biguint_to_centered(&values[k], modulus));
        k += 1;
    }
    out
}

/// The polynomial of `source_context` lifted into `target_context`: each
/// coefficient is reconstructed modulo `Q`, centered, and reduced modulo the
/// target primes.
pub(crate) fn lift_poly_to_context(
    poly: &RnsPolynomial,
    source_context: &RnsContext,
    target_context: &RnsContext,
) -> (r: RnsPolynomial)
    requires
        source_context.wf(),
        target_context.wf(),
        crt_invertible(source_context.spec_moduli()),
        target_context.spec_degree() == source_context.spec_degree(),
        poly.has_shape(source_context.spec_degree(), source_context.spec_moduli()),
    ensures
        r.has_shape(target_context.spec_degree(), target_context.spec_moduli()),
        exists|crt: Seq<nat>|
            #[trigger] is_crt_of(crt, *poly, source_context.spec_moduli()) && forall|l: int, k: int|
                0 <= l < target_context.spec_levels() && 0 <= k < target_context.spec_degree() ==> #[trigger] r.coeff(
                    l,
                    k,
                ) as int == centered(crt[k] as int, source_context.spec_total_modulus() as int) % (
                target_context.spec_moduli()[l] as int),
{
    let coeffs = reconstruct(poly, source_context);
    let modulus = source_context.total_modulus();
    let centered_values = centered_coeffs(&coeffs, &modulus);
    let r = target_context.poly_from_bigint_coeffs(centered_values.as_slice());
    proof {
        let crt = nat_values(coeffs@);
        assert forall|l: int, k: int|
            0 <= l < target_context.spec_levels() && 0 <= k < target_context.spec_degree() implies #[trigger] r.coeff(
                l,
                k,
            ) as int == centered(crt[k] as int, source_context.spec_total_modulus() as int) % (
            target_context.spec_moduli()[l] as int) by {
            assert(crt[k] == coeffs@[k]@);
        }
        assert(is_crt_of(crt, *poly, source_context.spec_moduli()));
    }
    r
}

/// `digits` is the gadget decomposition of `poly` in `context`: polynomial
/// `d` holds, coefficient by coefficient, digit `d` of the first `count`
/// balanced base-`2^decomp_bits` digits of the centered CRT value.
pub open spec fn is_gadget_decomposition(
    digits: Seq<RnsPolynomial>,
    poly: RnsPolynomial,
    degree: nat,
    moduli: Seq<u64>,
    decomp_bits: nat,
    count: nat,
) -> bool {
    &&& digits.len() == count
    &&& forall|d: int| 0 <= d < count ==> (#[trigger] digits[d]).has_shape(degree, moduli)
    &&& exists|crt: Seq<nat>|
        #[trigger] is_crt_of(crt, poly, moduli) && forall|d: int, l: int, k: int|
            0 <= d < count && 0 <= l < moduli.len() && 0 <= k < degree ==> #[trigger] digits[d].coeff(l, k) as int
                == balanced_digits(centered(crt[k] as int, moduli_product(moduli) as int), pow2(decomp_bits) as int, count)[d]
                % (moduli[l] as int)
}

/// `r` is the key switch of `poly` with `key`: for a gadget decomposition of
/// `poly` into digits `d_i`, `r = sum_i d_i * key_i`, residue by residue.
pub open spec fn is_switch_of(
    r: RnsCiphertext,
    poly: RnsPolynomial,
    key: RnsKeySwitchingKey,
    degree: nat,
    moduli: Seq<u64>,
) -> bool {
    exists|digits: Seq<RnsPolynomial>|
        #[trigger] is_gadget_decomposition(digits, poly, degree, moduli, key.decomp_bits as nat, key.ksk@.len())
            && forall|l: int, k: int|
            0 <= l < moduli.len() && 0 <= k < degree ==> {
                &&& #[trigger] r.c0.coeff(l, k) as int == switched_sum(digits, key.ksk@, false, l, k, key.ksk@.len()) % (
                moduli[l] as int)
                &&& r.c1.coeff(l, k) as int == switched_sum(digits, key.ksk@, true, l, k, key.ksk@.len()) % (
                moduli[l] as int)
            }
}

/// `r` relinearizes `ct` with the hybrid `key`: `r = (c0 + w0, c1 + w1)` for
/// the hybrid key switch `w` of `c2`, residue by residue.
pub open spec fn is_hybrid_relinearization_of(
    r: RnsCiphertext,
    ct: RnsQuadraticCiphertext,
    key: RnsKeySwitchingKey,
    degree: nat,
    q_moduli: Seq<u64>,
    aux: Seq<u64>,
    count: nat,
) -> bool {
    exists|w: RnsCiphertext|
        #[trigger] is_hybrid_switch_of(w, ct.c2, key, degree, q_moduli, aux, count) && w.has_shape(degree, q_moduli)
            && forall|l: int, k: int|
            0 <= l < q_moduli.len() && 0 <= k < degree ==> {
                &&& #[trigger] r.c0.coeff(l, k) as int == (ct.c0.coeff(l, k) + w.c0.coeff(l, k)) % (q_moduli[l] as int)
                &&& r.c1.coeff(l, k) as int == (ct.c1.coeff(l, k) + w.c1.coeff(l, k)) % (q_moduli[l] as int)
            }
}

/// `r` relinearizes `ct` with `key`: `r = (c0 + w0, c1 + w1)` for the key
/// switch `w` of `c2`, residue by residue.
pub open spec fn is_relinearization_of(
    r: RnsCiphertext,
    ct: RnsQuadraticCiphertext,
    key: RnsKeySwitchingKey,
    degree: nat,
    moduli: Seq<u64>,
) -> bool {
    exists|w: RnsCiphertext|
        #[trigger] is_switch_of(w, ct.c2, key, degree, moduli) && w.has_shape(degree, moduli) && forall|l: int, k: int|
            0 <= l < moduli.len() && 0 <= k < degree ==> {
                &&& #[trigger] r.c0.coeff(l, k) as int == (ct.c0.coeff(l, k) + w.c0.coeff(l, k)) % (moduli[l] as int)
                &&& r.c1.coeff(l, k) as int == (ct.c1.coeff(l, k) + w.c1.coeff(l, k)) % (moduli[l] as int)
            }
}

/// Coefficient `k`, before reduction modulo prime `l`, of
/// `sum_(i<count) digits[i] * keys[i].c0`, or of the same with `c1` when `second`.
pub open spec fn switched_sum(
    digits: Seq<RnsPolynomial>,
    keys: Seq<RnsCiphertext>,
    second: bool,
    l: int,
    k: int,
    count: nat,
) -> int
    decreases count,
{
    if count == 0 {
        0
    } else {
        let i = count - 1;
        switched_sum(digits, keys, second, l, k, (count - 1) as nat) + prod_coeff(
            digits[i],
            if second { keys[i].c1 } else { keys[i].c0 },
            l,
            k,
        )
    }
}

/// The gadget decomposition of `poly`: for each coefficient, the first
/// `levels` balanced base-`2^decomp_bits` digits of its centered CRT value;
/// digit `d` of every coefficient forms polynomial `d`.
pub(crate) fn decompose_poly_rns_with_levels(
    poly: &RnsPolynomial,
    context: &RnsContext,
    decomp_bits: usize,
    levels: usize,
) -> (r: Vec<RnsPolynomial>)
    requires
        context.wf(),
        crt_invertible(context.spec_moduli()),
        poly.has_shape(context.spec_degree(), context.spec_moduli()),
        1 <= decomp_bits <= 62,
    ensures
        is_gadget_decomposition(r@, *poly, context.spec_degree(), context.spec_moduli(), decomp_bits as nat, levels as nat),
{
    let coeffs = reconstruct(poly, context);
    let modulus = context.total_modulus();
    let centered_values = centered_coeffs(&coeffs, &modulus);
    let ghost crt = nat_values(coeffs@);
    let ghost base = pow2(decomp_bits as nat) as int;
    let ghost total = context.spec_total_modulus() as int;
    let n = context.poly_degree();
    let mut all_digits: Vec<Vec<i64>> = Vec::with_capacity(n);
    let mut k: usize = 0;
    while k < n
        invariant
            n == context.spec_degree(),
            centered_values@.len() == n,
            coeffs@.len() == n,
            crt == nat_values(coeffs@),
            modulus@ == total,
            1 <= decomp_bits <= 62,
            base == pow2(decomp_bits as nat) as int,
            forall|j: int| 0 <= j < n ==> (#[trigger] centered_values@[j])@ == centered(coeffs@[j]@ as int, total),
            k <= n,
            all_digits@.len() == k,
            forall|j: int|
                0 <= j < k ==> {
                    &&& (#[trigger] all_digits@[j])@.len() == levels
                    &&& forall|d: int|
                        0 <= d < levels ==> #[trigger] all_digits@[j]@[d] as int == balanced_digits(
                            centered(crt[j] as int, total),
                            base,
                            levels as nat,
                        )[d]
                },
        decreases n - k,
    {
        let digits = balanced_digits_bigint(&centered_values[k], levels, decomp_bits);
        proof {
            assert(crt[k as int] == coeffs@[k as int]@);
        }
        all_digits.push(digits);
        k += 1;
    }
    let mut out: Vec<RnsPolynomial> = Vec::with_capacity(levels);
    let mut d: usize = 0;
    while d < levels
        invariant
            context.wf(),
            n == context.spec_degree(),
            all_digits@.len() == n,
            forall|j: int|
                0 <= j < n ==> {
                    &&& (#[trigger] all_digits@[j])@.len() == levels
                    &&& forall|e: int|
                        0 <= e < levels ==> #[trigger] all_digits@[j]@[e] as int == balanced_digits(
                            centered(crt[j] as int, total),
                            base,
                            levels as nat,
                        )[e]
                },
            total == context.spec_total_modulus() as int,
            d <= levels,
            out@.len() == d,
            forall|e: int|
                0 <= e < d ==> (#[trigger] out@[e]).has_shape(context.spec_degree(), context.spec_moduli()),
            forall|e: int, l: int, j: int|
                0 <= e < d && 0 <= l < context.spec_levels() && 0 <= j < context.spec_degree()
                    ==> #[trigger] out@[e].coeff(l, j) as int == balanced_digits(
                    centered(crt[j] as int, total),
                    base,
                    levels as nat,
                )[e] % (context.spec_moduli()[l] as int),
        decreases levels - d,
    {
        let mut digit_values: Vec<BigInteger> = Vec::with_capacity(n);
        let mut j: usize = 0;
        while j < n
            invariant
                n == all_digits@.len(),
                d < levels,
                forall|i: int| 0 <= i < n ==> (#[trigger] all_digits@[i])@.len() == levels,
                j <= n,
                digit_values@.len() == j,
                forall|i: int| 0 <= i < j ==> (#[trigger] digit_values@[i])@ == all_digits@[i]@[d as int] as int,
            decreases n - j,
        {
            digit_values.push(BigInteger::from_i64(all_digits[j][d]));
            j += 1;
        }
        let digit_poly = context.poly_from_bigint_coeffs(digit_values.as_slice());
        proof {
            assert forall|l: int, i: int|
                0 <= l < context.spec_levels() && 0 <= i < context.spec_degree() implies #[trigger] digit_poly.coeff(
                    l,
                    i,
                ) as int == balanced_digits(centered(crt[i] as int, total), base, levels as nat)[d as int] % (
                context.spec_moduli()[l] as int) by {
                assert(digit_values@[i]@ == all_digits@[i]@[d as int] as int);
            }
        }
        out.push(digit_poly);
        d += 1;
    }
    proof {
        assert(is_crt_of(crt, *poly, context.spec_moduli()));
        assert(is_gadget_decomposition(out@, *poly, context.spec_degree(), context.spec_moduli(), decomp_bits as nat, levels as nat));
    }
    out
}


/// The product of a concatenation is the product of the products.
proof fn lemma_product_concat(a: Seq<u64>, b: Seq<u64>)
    ensures
        moduli_product(a + b) == moduli_product(a) * moduli_product(b),
    decreases b.len(),
{
    if b.len() == 0 {
        assert(a + b =~= a);
        assert(moduli_product(b) == 1);
        lemma_mul_basics(moduli_product(a) as int);
    } else {
        lemma_product_concat(a, b.drop_last());
        assert((a + b).drop_last() =~= a + b.drop_last());
        assert((a + b).last() == b.last());
        assert(moduli_product(a + b) == moduli_product((a + b).drop_last()) * ((a + b).last() as nat));
        assert(moduli_product(b) == moduli_product(b.drop_last()) * (b.last() as nat));
        lemma_mul_is_associative(
            moduli_product(a) as int,
            moduli_product(b.drop_last()) as int,
            b.last() as int,
        );
    }
}

/// A contiguous part of a valid basis is a valid basis.
proof fn lemma_basis_part(poly_degree: nat, primes: Seq<RnsPrime>, start: int, end: int)
    requires
        rns_basis_ok(poly_degree, primes),
        0 <= start < end <= primes.len(),
    ensures
        rns_basis_ok(poly_degree, primes.subrange(start, end)),
{
    let p = primes.subrange(start, end);
    assert forall|i: int, j: int| 0 <= i < j < p.len() implies (#[trigger] p[i]).modulus != (#[trigger] p[j]).modulus by {
        assert(p[i] == primes[start + i]);
        assert(p[j] == primes[start + j]);
    }
    assert forall|i: int| 0 <= i < p.len() implies crate::math::ntt::ntt_plan_ok(
        poly_degree,
        (#[trigger] p[i]).modulus as nat,
        p[i].primitive_root as nat,
    ) by {
        assert(p[i] == primes[start + i]);
    }
}

/// The primes `start..` of a chain.
fn suffix_primes(primes: &[RnsPrime], start: usize) -> (r: Vec<RnsPrime>)
    requires
        start <= primes@.len(),
    ensures
        r@ == primes@.subrange(start as int, primes@.len() as int),
{
    let mut out: Vec<RnsPrime> = Vec::with_capacity(primes.len() - start);
    let mut i: usize = start;
    while i < primes.len()
        invariant
            start <= i <= primes@.len(),
            out@ == primes@.subrange(start as int, i as int),
        decreases primes@.len() - i,
    {
        out.push(primes[i]);
        i += 1;
        proof {
            assert(out@ =~= primes@.subrange(start as int, i as int));
        }
    }
    out
}

/// The evaluation basis extends the ciphertext basis: it starts with the same
/// primes and has at least one more.
pub open spec fn extends_basis(q_context: RnsContext, eval_key_context: RnsContext) -> bool {
    &&& q_context.wf()
    &&& eval_key_context.wf()
    &&& eval_key_context.spec_degree() == q_context.spec_degree()
    &&& q_context.spec_levels() < eval_key_context.spec_levels()
    &&& eval_key_context.spec_primes().subrange(0, q_context.spec_levels() as int) == q_context.spec_primes()
}

/// The auxiliary moduli of an evaluation basis: those after the ciphertext basis.
pub open spec fn aux_moduli(q_context: RnsContext, eval_key_context: RnsContext) -> Seq<u64> {
    eval_key_context.spec_moduli().subrange(q_context.spec_levels() as int, eval_key_context.spec_levels() as int)
}

/// `values` reconstruct, modulo the product of `moduli`, the residues of
/// `poly` at positions `start..start + moduli.len()`.
pub open spec fn is_crt_of_part(values: Seq<nat>, poly: RnsPolynomial, start: int, moduli: Seq<u64>) -> bool {
    &&& values.len() == poly.spec_degree()
    &&& forall|k: int|
        0 <= k < values.len() ==> {
            &&& #[trigger] values[k] < moduli_product(moduli)
            &&& forall|j: int|
                0 <= j < moduli.len() ==> values[k] % (#[trigger] moduli[j] as nat) == poly.coeff(start + j, k)
        }
}

/// Mod-down from the evaluation basis to the ciphertext basis: with `P` the
/// product of the auxiliary primes, every ciphertext residue becomes
/// `(a - centered(a mod P)) / P` modulo its prime.
fn mod_down_eval_to_q(
    poly: &RnsPolynomial,
    q_context: &RnsContext,
    eval_key_context: &RnsContext,
    aux_modulus: &BigNat,
) -> (r: RnsPolynomial)
    requires
        extends_basis(*q_context, *eval_key_context),
        poly.has_shape(eval_key_context.spec_degree(), eval_key_context.spec_moduli()),
        aux_modulus@ == moduli_product(aux_moduli(*q_context, *eval_key_context)),
        crt_invertible(aux_moduli(*q_context, *eval_key_context)),
        forall|l: int|
            0 <= l < q_context.spec_levels() ==> has_inverse(
                aux_modulus@ % (#[trigger] q_context.spec_moduli()[l] as nat),
                q_context.spec_moduli()[l] as nat,
            ),
    ensures
        r.has_shape(q_context.spec_degree(), q_context.spec_moduli()),
        exists|crt: Seq<nat>|
            #[trigger] is_crt_of_part(crt, *poly, q_context.spec_levels() as int, aux_moduli(*q_context, *eval_key_context))
                && forall|l: int, k: int|
                0 <= l < q_context.spec_levels() && 0 <= k < q_context.spec_degree() ==> (#[trigger] r.coeff(l, k) as int
                    * aux_modulus@) % (q_context.spec_moduli()[l] as int) == (poly.coeff(l, k) as int - centered(
                    crt[k] as int,
                    aux_modulus@ as int,
                )) % (q_context.spec_moduli()[l] as int),
{
    let q_levels = q_context.levels();
    let ghost aux = aux_moduli(*q_context, *eval_key_context);
    let ghost eval_moduli = eval_key_context.spec_moduli();
    proof {
        q_context.lemma_context_facts();
        eval_key_context.lemma_context_facts();
        lemma_basis_part(
            eval_key_context.spec_degree(),
            eval_key_context.spec_primes(),
            q_levels as int,
            eval_key_context.spec_levels() as int,
        );
        assert forall|l: int| 0 <= l < q_levels implies q_context.spec_moduli()[l] == eval_moduli[l] by {
            assert(eval_key_context.spec_primes().subrange(0, q_levels as int)[l] == eval_key_context.spec_primes()[l]);
        }
    }
    let aux_primes = suffix_primes(eval_key_context.primes(), q_levels);
    let aux_context = match RnsContext::new(q_context.poly_degree(), aux_primes) {
        Ok(c) => c,
        Err(_) => {
            proof {
                assert(false);
            }
            return q_context.zero_poly();
        },
    };
    proof {
        assert(aux_context.spec_moduli() =~= aux);
        aux_context.lemma_context_facts();
    }
    let mut aux_residues: Vec<ModularPolynomial> = Vec::with_capacity(aux_context.levels());
    let mut i: usize = q_levels;
    let eval_levels = eval_key_context.levels();
    while i < eval_levels
        invariant
            q_levels <= i <= eval_levels,
            eval_levels == eval_key_context.spec_levels(),
            q_levels == q_context.spec_levels(),
            poly.has_shape(eval_key_context.spec_degree(), eval_moduli),
            eval_moduli == eval_key_context.spec_moduli(),
            aux_residues@.len() == i - q_levels,
            forall|j: int|
                0 <= j < i - q_levels ==> (#[trigger] aux_residues@[j])@ == poly.spec_residues()[q_levels + j]@,
        decreases eval_levels - i,
    {
        aux_residues.push(poly.residues()[i].duplicate());
        i += 1;
    }
    proof {
        assert forall|j: int| 0 <= j < aux_residues@.len() implies {
            &&& (#[trigger] aux_residues@[j]).spec_degree() == aux_context.spec_degree()
            &&& aux_residues@[j].spec_modulus() == aux_context.spec_moduli()[j]
        } by {
            assert(aux_residues@[j]@ == poly.spec_residues()[q_levels + j]@);
            assert(poly.spec_residues()[q_levels + j].spec_modulus() == eval_moduli[q_levels + j]);
        }
    }
    let aux_poly = RnsPolynomial::new(&aux_context, aux_residues);
    proof {
        assert forall|j: int| 0 <= j < aux.len() implies {
            &&& (#[trigger] aux_poly.spec_residues()[j]).wf()
            &&& aux_poly.spec_residues()[j].spec_degree() == aux_context.spec_degree()
            &&& aux_poly.spec_residues()[j].spec_modulus() == aux[j]
        } by {
            assert(aux_poly.spec_residues()[j]@ == poly.spec_residues()[q_levels + j]@);
            assert(poly.spec_residues()[q_levels + j].wf());
        }
    }
    let p_values = reconstruct(&aux_poly, &aux_context);
    let p_modulus = aux_context.total_modulus();
    let ghost crt = nat_values(p_values@);
    proof {
        assert forall|k: int| 0 <= k < crt.len() implies {
            &&& #[trigger] crt[k] < moduli_product(aux)
            &&& forall|j: int| 0 <= j < aux.len() ==> crt[k] % (#[trigger] aux[j] as nat) == poly.coeff(q_levels + j, k)
        } by {
            assert forall|j: int| 0 <= j < aux.len() implies crt[k] % (#[trigger] aux[j] as nat) == poly.coeff(
                q_levels + j,
                k,
            ) by {
                assert(aux_poly.spec_residues()[j]@ == poly.spec_residues()[q_levels + j]@);
                assert(aux_poly.coeff(j, k) == poly.coeff(q_levels + j, k));
            }
        }
        assert(is_crt_of_part(crt, *poly, q_levels as int, aux));
        assert(p_modulus@ == aux_modulus@);
    }
    let n = q_context.poly_degree();
    let primes = q_context.primes();
    let mut residues: Vec<ModularPolynomial> = Vec::with_capacity(q_levels);
    let mut l: usize = 0;
    while l < q_levels
        invariant
            q_context.wf(),
            primes@ == q_context.spec_primes(),
            q_levels == q_context.spec_levels(),
            forall|i: int| 0 <= i < q_levels ==> #[trigger] q_context.spec_moduli()[i] >= 3,
            forall|i: int| 0 <= i < q_levels ==> q_context.spec_moduli()[i] == #[trigger] eval_moduli[i],
            forall|i: int|
                0 <= i < q_levels ==> has_inverse(
                    aux_modulus@ % (#[trigger] q_context.spec_moduli()[i] as nat),
                    q_context.spec_moduli()[i] as nat,
                ),
            poly.has_shape(eval_key_context.spec_degree(), eval_moduli),
            eval_moduli.len() > q_levels,
            n == q_context.spec_degree(),
            n == eval_key_context.spec_degree(),
            p_values@.len() == n,
            crt == nat_values(p_values@),
            p_modulus@ == aux_modulus@,
            aux_modulus@ > 0,
            l <= q_levels,
            residues@.len() == l,
            forall|i: int|
                0 <= i < l ==> {
                    &&& (#[trigger] residues@[i]).wf()
                    &&& residues@[i].spec_degree() == n
                    &&& residues@[i].spec_modulus() == q_context.spec_moduli()[i]
                    &&& forall|k: int|
                        0 <= k < n ==> (#[trigger] residues@[i].spec_coeffs()[k] as int * aux_modulus@) % (
                        q_context.spec_moduli()[i] as int) == (poly.coeff(i, k) as int - centered(
                            crt[k] as int,
                            aux_modulus@ as int,
                        )) % (q_context.spec_moduli()[i] as int)
                },
        decreases q_levels - l,
    {
        let q_i = primes[l].modulus;
        assert(q_i == q_context.spec_moduli()[l as int]);
        let q_big = BigNat::from_u64(q_i);
        let p_mod_q = match big_to_u64(&big_rem(aux_modulus, &q_big)) {
            Some(x) => x,
            None => {
                proof {
                    lemma_mod_bound(aux_modulus@ as int, q_i as int);
                    assert(false);
                }
                0
            },
        };
        let inverse = match mod_inv_u64(p_mod_q, q_i) {
            Some(x) => x,
            None => {
                proof {
                    assert(false);
                }
                0
            },
        };
        let residue_coeffs = poly.residues()[l].coeffs();
        proof {
            assert(poly.spec_residues()[l as int].wf());
            assert(poly.spec_residues()[l as int].spec_modulus() == q_i);
        }
        let mut coeffs: Vec<u64> = Vec::with_capacity(n);
        let mut k: usize = 0;
        while k < n
            invariant
                q_i >= 3,
                q_i == q_context.spec_moduli()[l as int],
                q_big@ == q_i,
                inverse < q_i,
                p_mod_q == aux_modulus@ % (q_i as nat),
                (inverse as nat * p_mod_q as nat) % q_i as nat == 1,
                residue_coeffs@ == poly.spec_residues()[l as int].spec_coeffs(),
                residue_coeffs@.len() == n,
                forall|j: int| 0 <= j < n ==> #[trigger] residue_coeffs@[j] < q_i,
                p_values@.len() == n,
                crt == nat_values(p_values@),
                p_modulus@ == aux_modulus@,
                aux_modulus@ > 0,
                k <= n,
                coeffs@.len() == k,
                forall|j: int|
                    0 <= j < k ==> #[trigger] coeffs@[j] < q_i && (coeffs@[j] as int * aux_modulus@) % (q_i as int)
                        == (residue_coeffs@[j] as int - centered(crt[j] as int, aux_modulus@ as int)) % (q_i as int),
            decreases n - k,
        {
            let centered_p = mod_q_biguint_to_centered(&p_values[k], &p_modulus);
            let lifted = centered_bigint_to_mod_q(&centered_p, &q_big);
            let p_lift = match big_to_u64(&lifted) {
                Some(x) => x,
                None => {
                    proof {
                        lemma_mod_bound(centered_p@, q_i as int);
                        assert(false);
                    }
                    0
                },
            };
            proof {
                lemma_mod_bound(centered_p@, q_i as int);
            }
            let coeff = residue_coeffs[k];
            let numerator = sub_mod_u64(coeff, p_lift, q_i);
            proof {
                lemma_mul_upper_bound(numerator as int, u64::MAX as int, inverse as int, u64::MAX as int);
            }
            let value = ((numerator as u128 * inverse as u128) % q_i as u128) as u64;
            proof {
                let cv = centered(crt[k as int] as int, aux_modulus@ as int);
                assert(crt[k as int] == p_values@[k as int]@);
                assert(centered_p@ == cv);
                lemma_divide_by_dropped(numerator as int, inverse as int, aux_modulus@ as int, q_i as int, value as int);
                lemma_sub_mod_noop(coeff as int, cv, q_i as int);
                lemma_small_mod(coeff as nat, q_i as nat);
                lemma_small_mod(numerator as nat, q_i as nat);
                lemma_small_mod(p_lift as nat, q_i as nat);
                lemma_mod_bound(numerator as int * inverse as int, q_i as int);
            }
            coeffs.push(value);
            k += 1;
        }
        let residue = ModularPolynomial::new(coeffs, q_i);
        proof {
            assert forall|k: int| 0 <= k < n implies (#[trigger] residue.spec_coeffs()[k] as int * aux_modulus@) % (
            q_context.spec_moduli()[l as int] as int) == (poly.coeff(l as int, k) as int - centered(
                crt[k] as int,
                aux_modulus@ as int,
            )) % (q_context.spec_moduli()[l as int] as int) by {
                lemma_small_mod(coeffs@[k] as nat, q_i as nat);
            }
        }
        residues.push(residue);
        l += 1;
    }
    let r = RnsPolynomial::new(q_context, residues);
    proof {
        assert(is_crt_of_part(crt, *poly, q_levels as int, aux));
    }
    r
}


/// The coefficients of `s^2`, by prime and position.
pub open spec fn square_of(s: RnsPolynomial) -> spec_fn(int, int) -> int {
    |l: int, k: int| prod_coeff(s, s, l, k)
}

/// The coefficients of the image of `s` under `X -> X^g`, by prime and position.
pub open spec fn galois_of(s: RnsPolynomial, g: nat) -> spec_fn(int, int) -> int {
    |l: int, k: int| galois_coeff(s.residue_coeffs()[l], g, s.spec_moduli()[l] as nat, k)
}

/// `ct` is a switching digit for `source` scaled by `factor`: an encryption
/// under `public_key`, with a ternary mask and Gaussian errors, of a
/// plaintext whose coefficient `k` modulo prime `l` is `source(l, k) * factor`.
pub open spec fn is_switching_digit_for(
    ct: RnsCiphertext,
    source: spec_fn(int, int) -> int,
    factor: int,
    public_key: RnsPublicKey,
    degree: nat,
    moduli: Seq<u64>,
) -> bool {
    exists|m: RnsPolynomial, u: RnsPolynomial, e0: RnsPolynomial, e1: RnsPolynomial|
        {
            &&& m.has_shape(degree, moduli)
            &&& u.has_shape(degree, moduli)
            &&& e0.has_shape(degree, moduli)
            &&& e1.has_shape(degree, moduli)
            &&& is_ternary_lift(u, degree)
            &&& is_gaussian_lift(e0, degree)
            &&& is_gaussian_lift(e1, degree)
            &&& forall|l: int, k: int|
                0 <= l < moduli.len() && 0 <= k < degree ==> #[trigger] m.coeff(l, k) as int == (source(l, k) * factor)
                    % (moduli[l] as int)
            &&& #[trigger] is_encryption(ct, m, public_key, u, e0, e1)
        }
}

/// A switching digit stays one when its source is replaced by one that agrees
/// on the basis, and its public key by one with the same residues there.
pub proof fn lemma_switching_digit_reindex(
    ct: RnsCiphertext,
    source: spec_fn(int, int) -> int,
    other_source: spec_fn(int, int) -> int,
    factor: int,
    public_key: RnsPublicKey,
    other_key: RnsPublicKey,
    degree: nat,
    moduli: Seq<u64>,
)
    requires
        is_switching_digit_for(ct, source, factor, public_key, degree, moduli),
        forall|l: int, k: int| 0 <= l < moduli.len() && 0 <= k < degree ==> #[trigger] source(l, k) == other_source(l, k),
        forall|l: int|
            0 <= l < moduli.len() ==> {
                &&& #[trigger] public_key.p0.residue_coeffs()[l] == other_key.p0.residue_coeffs()[l]
                &&& public_key.p1.residue_coeffs()[l] == other_key.p1.residue_coeffs()[l]
                &&& public_key.p0.spec_moduli()[l] == other_key.p0.spec_moduli()[l]
                &&& public_key.p1.spec_moduli()[l] == other_key.p1.spec_moduli()[l]
            },
    ensures
        is_switching_digit_for(ct, other_source, factor, other_key, degree, moduli),
{
    let (m, u, e0, e1) = choose|m: RnsPolynomial, u: RnsPolynomial, e0: RnsPolynomial, e1: RnsPolynomial|
        {
            &&& m.has_shape(degree, moduli)
            &&& u.has_shape(degree, moduli)
            &&& e0.has_shape(degree, moduli)
            &&& e1.has_shape(degree, moduli)
            &&& is_ternary_lift(u, degree)
            &&& is_gaussian_lift(e0, degree)
            &&& is_gaussian_lift(e1, degree)
            &&& forall|l: int, k: int|
                0 <= l < moduli.len() && 0 <= k < degree ==> #[trigger] m.coeff(l, k) as int == (source(l, k) * factor)
                    % (moduli[l] as int)
            &&& #[trigger] is_encryption(ct, m, public_key, u, e0, e1)
        };
    assert forall|l: int, k: int| 0 <= l < moduli.len() && 0 <= k < degree implies #[trigger] m.coeff(l, k) as int == (
    other_source(l, k) * factor) % (moduli[l] as int) by {
        assert(source(l, k) == other_source(l, k));
    }
    assert forall|l: int, k: int| 0 <= l < m.spec_levels() && 0 <= k < m.spec_degree() implies {
        &&& prod_coeff(public_key.p0, u, l, k) == prod_coeff(other_key.p0, u, l, k)
        &&& prod_coeff(public_key.p1, u, l, k) == prod_coeff(other_key.p1, u, l, k)
    } by {
        assert(public_key.p0.residue_coeffs()[l] == other_key.p0.residue_coeffs()[l]);
    }
    assert(is_encryption(ct, m, other_key, u, e0, e1));
}

/// A reduced CRT value times a reduced power of the base is, modulo each
/// prime, the residue times that power.
proof fn lemma_plaintext_digit(crt: nat, base_power: nat, factor: int, moduli: Seq<u64>, l: int, residue: int)
    requires
        0 <= l < moduli.len(),
        forall|j: int| 0 <= j < moduli.len() ==> #[trigger] moduli[j] >= 1,
        crt % (moduli[l] as nat) == residue,
        base_power == factor % (moduli_product(moduli) as int),
    ensures
        ((crt * base_power) % moduli_product(moduli)) as int % (moduli[l] as int) == (residue * factor) % (
        moduli[l] as int),
{
    let q = moduli[l] as int;
    let big_q = moduli_product(moduli) as int;
    lemma_product_positive(moduli);
    lemma_mod_product_then_modulus((crt * base_power) as int, moduli, l);
    lemma_mod_product_then_modulus(factor, moduli, l);
    assert((base_power as int) % q == factor % q);
    assert(((crt * base_power) % moduli_product(moduli)) as int == ((crt * base_power) as int) % big_q);
    lemma_mul_mod_noop(crt as int, base_power as int, q);
    lemma_mul_mod_noop(crt as int, factor, q);
    lemma_mul_mod_noop(residue, factor, q);
    lemma_mod_twice(crt as int, q);
    assert((crt as int) % q == residue);
}

/// A key-switching key from `source` to the owner of `target_public_key`
/// over the ciphertext basis: digit `i` encrypts `source * 2^(i*decomp_bits)`
/// modulo `Q`.
pub(crate) fn generate_keyswitch_key_rns<S: ErrorSampler>(
    source: &RnsPolynomial,
    target_public_key: &RnsPublicKey,
    context: &RnsContext,
    decomp_bits: usize,
    sampler: &mut S,
) -> (r: RnsKeySwitchingKey)
    requires
        context.wf(),
        crt_invertible(context.spec_moduli()),
        source.has_shape(context.spec_degree(), context.spec_moduli()),
        target_public_key.p0.has_shape(context.spec_degree(), context.spec_moduli()),
        target_public_key.p1.has_shape(context.spec_degree(), context.spec_moduli()),
        decomp_bits > 0,
        bit_length(context.spec_total_modulus()) + decomp_bits <= usize::MAX,
    ensures
        r.wf(),
        r.ksk@.len() == (bit_length(context.spec_total_modulus()) + decomp_bits - 1) / (decomp_bits as int),
        forall|i: int|
            0 <= i < r.ksk@.len() ==> (#[trigger] r.ksk@[i]).has_shape(context.spec_degree(), context.spec_moduli()),
        r.decomp_bits == decomp_bits,
        r.level == context.spec_levels() - 1,
        r.aux_level_count == 0,
        forall|i: int| 0 <= i < r.ksk@.len() ==> (#[trigger] r.ksk@[i]).scale_bits == 0,
        forall|i: int|
            0 <= i < r.ksk@.len() ==> is_switching_digit_for(
                #[trigger] r.ksk@[i],
                |l: int, k: int| source.coeff(l, k) as int,
                pow(pow2(decomp_bits as nat) as int, i as nat),
                *target_public_key,
                context.spec_degree(),
                context.spec_moduli(),
            ),
{
    proof {
        context.lemma_context_facts();
    }
    let modulus = context.total_modulus();
    let digits = num_decomp_digits(context.total_modulus_bits(), decomp_bits);
    let source_coeffs = reconstruct(source, context);
    let mut base_power = BigNat::from_u64(1);
    let base = big_pow2(decomp_bits);
    let mut ksk: Vec<RnsCiphertext> = Vec::with_capacity(digits);
    proof {
        lemma_pow0(pow2(decomp_bits as nat) as int);
        assert(context.spec_moduli()[0] >= 3);
        assert(modulus@ % (context.spec_moduli()[0] as nat) == 0);
        if modulus@ == 1 {
            lemma_small_mod(1, context.spec_moduli()[0] as nat);
        }
        lemma_small_mod(1, modulus@);
    }
    let mut i: usize = 0;
    while i < digits
        invariant
            context.wf(),
            modulus@ == context.spec_total_modulus(),
            modulus@ > 0,
            target_public_key.p0.has_shape(context.spec_degree(), context.spec_moduli()),
            target_public_key.p1.has_shape(context.spec_degree(), context.spec_moduli()),
            i <= digits,
            ksk@.len() == i,
            forall|j: int|
                0 <= j < i ==> {
                    &&& (#[trigger] ksk@[j]).wf()
                    &&& ksk@[j].has_shape(context.spec_degree(), context.spec_moduli())
                    &&& ksk@[j].scale_bits == 0
                },
            base@ == pow2(decomp_bits as nat),
            base_power@ == pow(pow2(decomp_bits as nat) as int, i as nat) % (modulus@ as int),
            is_crt_of(nat_values(source_coeffs@), *source, context.spec_moduli()),
            source_coeffs@.len() == context.spec_degree(),
            source.has_shape(context.spec_degree(), context.spec_moduli()),
            forall|j: int|
                0 <= j < i ==> is_switching_digit_for(
                    #[trigger] ksk@[j],
                    |l: int, k: int| source.coeff(l, k) as int,
                    pow(pow2(decomp_bits as nat) as int, j as nat),
                    *target_public_key,
                    context.spec_degree(),
                    context.spec_moduli(),
                ),
        decreases digits - i,
    {
        let mut coeffs: Vec<BigNat> = Vec::with_capacity(source_coeffs.len());
        let mut k: usize = 0;
        while k < source_coeffs.len()
            invariant
                modulus@ > 0,
                k <= source_coeffs@.len(),
                coeffs@.len() == k,
                forall|j: int| 0 <= j < k ==> (#[trigger] coeffs@[j])@ == (source_coeffs@[j]@ * base_power@) % modulus@,
            decreases source_coeffs@.len() - k,
        {
            coeffs.push(big_rem(&big_mul(&source_coeffs[k], &base_power), &modulus));
            k += 1;
        }
        let plaintext = context.poly_from_biguint_coeffs(coeffs.as_slice());
        let ghost factor = pow(pow2(decomp_bits as nat) as int, i as nat);
        proof {
            assert forall|l: int, k: int| 0 <= l < context.spec_levels() && 0 <= k < context.spec_degree() implies
                (#[trigger] plaintext.coeff(l, k)) as int % (context.spec_moduli()[l] as int) == (source.coeff(l, k)
                * factor) % (context.spec_moduli()[l] as int) by {
                assert(nat_values(source_coeffs@)[k] == source_coeffs@[k]@);
                assert(source_coeffs@[k]@ % (context.spec_moduli()[l] as nat) == source.coeff(l, k));
                lemma_plaintext_digit(
                    source_coeffs@[k]@,
                    base_power@,
                    factor,
                    context.spec_moduli(),
                    l,
                    source.coeff(l, k) as int,
                );
                assert(nat_values(source_coeffs@)[k] == source_coeffs@[k]@);
                assert(plaintext.coeff(l, k) == coeffs@[k]@ % (context.spec_moduli()[l] as nat));
                lemma_mod_twice(coeffs@[k]@ as int, context.spec_moduli()[l] as int);
            }
        }
        let ct = encrypt_rns(&plaintext, target_public_key, context, 0, sampler);
        proof {
            let (u, e0, e1) = choose|u: RnsPolynomial, e0: RnsPolynomial, e1: RnsPolynomial|
                {
                    &&& u.has_shape(context.spec_degree(), context.spec_moduli())
                    &&& e0.has_shape(context.spec_degree(), context.spec_moduli())
                    &&& e1.has_shape(context.spec_degree(), context.spec_moduli())
                    &&& is_ternary_lift(u, context.spec_degree())
                    &&& is_gaussian_lift(e0, context.spec_degree())
                    &&& is_gaussian_lift(e1, context.spec_degree())
                    &&& #[trigger] is_encryption(ct, plaintext, *target_public_key, u, e0, e1)
                };
            let src = |l: int, k: int| source.coeff(l, k) as int;
            assert forall|l: int, k: int| 0 <= l < context.spec_levels() && 0 <= k < context.spec_degree() implies
                #[trigger] plaintext.coeff(l, k) as int == (src(l, k) * factor) % (context.spec_moduli()[l] as int) by {
                let q = context.spec_moduli()[l] as int;
                assert(plaintext.coeff(l, k) as int % q == (source.coeff(l, k) * factor) % q);
                lemma_small_mod(plaintext.coeff(l, k) as nat, q as nat);
            }
            assert(is_switching_digit_for(
                ct,
                src,
                factor,
                *target_public_key,
                context.spec_degree(),
                context.spec_moduli(),
            ));
        }
        ksk.push(ct);
        proof {
            lemma_pow2_pos(decomp_bits as nat);
            lemma_pow_positive(pow2(decomp_bits as nat) as int, i as nat);
            lemma_mul_mod_noop_left(factor, base@ as int, modulus@ as int);
            reveal(pow);
            assert(pow(pow2(decomp_bits as nat) as int, (i + 1) as nat) == pow2(decomp_bits as nat) as int * factor);
            lemma_mul_is_commutative(factor, base@ as int);
            assert forall|j: int| 0 <= j < i + 1 implies is_switching_digit_for(
                #[trigger] ksk@[j],
                |l: int, k: int| source.coeff(l, k) as int,
                pow(pow2(decomp_bits as nat) as int, j as nat),
                *target_public_key,
                context.spec_degree(),
                context.spec_moduli(),
            ) by {
                if j == i {
                    assert(ksk@[j] == ct);
                }
            }
        }
        base_power = big_rem(&big_mul(&base_power, &base), &modulus);
        i += 1;
    }
    RnsKeySwitchingKey { ksk, decomp_bits, level: context.levels() - 1, aux_level_count: 0 }
}

/// `ct` is a hybrid switching digit: `ct.c0 = value * factor + e - ct.c1 * s`
/// residue by residue over `moduli`, for a Gaussian error `e`, where
/// `value(k)` is an integer coefficient of the switched source.
pub open spec fn is_hybrid_digit_for(
    ct: RnsCiphertext,
    value: spec_fn(int) -> int,
    factor: int,
    s: RnsPolynomial,
    degree: nat,
    moduli: Seq<u64>,
) -> bool {
    exists|e: RnsPolynomial|
        {
            &&& e.has_shape(degree, moduli)
            &&& #[trigger] is_gaussian_lift(e, degree)
            &&& forall|l: int, k: int|
                0 <= l < moduli.len() && 0 <= k < degree ==> #[trigger] ct.c0.coeff(l, k) as int == (value(k) * factor
                    + e.coeff(l, k) - prod_coeff(ct.c1, s, l, k)) % (moduli[l] as int)
        }
}

/// The centered values of `crt` modulo `total`, by coefficient.
pub open spec fn centered_values(crt: Seq<nat>, total: int) -> spec_fn(int) -> int {
    |k: int| centered(crt[k] as int, total)
}

/// `crt` holds, for each coefficient, a value below the product of `moduli`
/// congruent to `source(l, k)` modulo each prime `l`.
pub open spec fn crt_matches(crt: Seq<nat>, source: spec_fn(int, int) -> int, moduli: Seq<u64>, degree: nat) -> bool {
    &&& crt.len() == degree
    &&& forall|k: int|
        0 <= k < degree ==> {
            &&& #[trigger] crt[k] < moduli_product(moduli)
            &&& forall|l: int| 0 <= l < moduli.len() ==> crt[k] % (#[trigger] moduli[l] as nat) == source(l, k)
        }
}

/// `key` is a hybrid key switching `source` to `secret` over `q_moduli`
/// extended by `aux`: for the centered CRT values `v` of `source` and the
/// lift `s'` of `secret`, digit `i` is `(v * P * 2^(i*decomp_bits) + e_i - a_i * s', a_i)`
/// with `P` the product of `aux`.
pub open spec fn is_hybrid_key_for(
    key: RnsKeySwitchingKey,
    source: spec_fn(int, int) -> int,
    secret: RnsPolynomial,
    degree: nat,
    q_moduli: Seq<u64>,
    aux: Seq<u64>,
) -> bool {
    exists|src_crt: Seq<nat>, lifted_secret: RnsPolynomial|
        #![trigger crt_matches(src_crt, source, q_moduli, degree), is_lift_of(lifted_secret, secret, q_moduli, q_moduli + aux)]
        {
            &&& crt_matches(src_crt, source, q_moduli, degree)
            &&& lifted_secret.has_shape(degree, q_moduli + aux)
            &&& is_lift_of(lifted_secret, secret, q_moduli, q_moduli + aux)
            &&& forall|i: int|
                0 <= i < key.ksk@.len() ==> is_hybrid_digit_for(
                    #[trigger] key.ksk@[i],
                    centered_values(src_crt, moduli_product(q_moduli) as int),
                    moduli_product(aux) * pow(pow2(key.decomp_bits as nat) as int, i as nat),
                    lifted_secret,
                    degree,
                    q_moduli + aux,
                )
        }
}

/// A hybrid key stays one for a source that agrees on the basis.
pub proof fn lemma_hybrid_key_reindex(
    key: RnsKeySwitchingKey,
    source: spec_fn(int, int) -> int,
    other_source: spec_fn(int, int) -> int,
    secret: RnsPolynomial,
    degree: nat,
    q_moduli: Seq<u64>,
    aux: Seq<u64>,
)
    requires
        is_hybrid_key_for(key, source, secret, degree, q_moduli, aux),
        forall|l: int, k: int| 0 <= l < q_moduli.len() && 0 <= k < degree ==> #[trigger] source(l, k) == other_source(l, k),
    ensures
        is_hybrid_key_for(key, other_source, secret, degree, q_moduli, aux),
{
    let (src_crt, lifted_secret) = choose|src_crt: Seq<nat>, lifted_secret: RnsPolynomial|
        #![trigger crt_matches(src_crt, source, q_moduli, degree), is_lift_of(lifted_secret, secret, q_moduli, q_moduli + aux)]
        {
            &&& crt_matches(src_crt, source, q_moduli, degree)
            &&& lifted_secret.has_shape(degree, q_moduli + aux)
            &&& is_lift_of(lifted_secret, secret, q_moduli, q_moduli + aux)
            &&& forall|i: int|
                0 <= i < key.ksk@.len() ==> is_hybrid_digit_for(
                    #[trigger] key.ksk@[i],
                    centered_values(src_crt, moduli_product(q_moduli) as int),
                    moduli_product(aux) * pow(pow2(key.decomp_bits as nat) as int, i as nat),
                    lifted_secret,
                    degree,
                    q_moduli + aux,
                )
        };
    assert forall|k: int| 0 <= k < degree implies {
        &&& #[trigger] src_crt[k] < moduli_product(q_moduli)
        &&& forall|l: int| 0 <= l < q_moduli.len() ==> src_crt[k] % (#[trigger] q_moduli[l] as nat) == other_source(l, k)
    } by {
        assert forall|l: int| 0 <= l < q_moduli.len() implies src_crt[k] % (#[trigger] q_moduli[l] as nat) == other_source(
            l,
            k,
        ) by {
            assert(source(l, k) == other_source(l, k));
        }
    }
    assert(crt_matches(src_crt, other_source, q_moduli, degree));
}

/// A hybrid key-switching key over the evaluation basis `Q * P`: digit `i`
/// is `(P * centered(source) * 2^(i*decomp_bits) + e - a * s, a)` for a fresh
/// uniform `a` and Gaussian `e`, with `s` the target secret lifted to `Q * P`.
pub(crate) fn generate_keyswitch_key_rns_hybrid<S: ErrorSampler>(
    source: &RnsPolynomial,
    target_secret_key: &RnsSecretKey,
    q_context: &RnsContext,
    eval_key_context: &RnsContext,
    decomp_bits: usize,
    sampler: &mut S,
) -> (r: RnsKeySwitchingKey)
    requires
        extends_basis(*q_context, *eval_key_context),
        crt_invertible(q_context.spec_moduli()),
        source.has_shape(q_context.spec_degree(), q_context.spec_moduli()),
        target_secret_key.poly.wf(),
        target_secret_key.poly.spec_levels() >= q_context.spec_levels(),
        forall|l: int|
            0 <= l < q_context.spec_levels() ==> {
                &&& (#[trigger] target_secret_key.poly.spec_residues()[l]).spec_modulus() == q_context.spec_moduli()[l]
                &&& target_secret_key.poly.spec_residues()[l].spec_degree() == q_context.spec_degree()
            },
        decomp_bits > 0,
        bit_length(q_context.spec_total_modulus()) + decomp_bits <= usize::MAX,
    ensures
        r.wf(),
        r.ksk@.len() == (bit_length(q_context.spec_total_modulus()) + decomp_bits - 1) / (decomp_bits as int),
        forall|i: int|
            0 <= i < r.ksk@.len() ==> (#[trigger] r.ksk@[i]).has_shape(
                eval_key_context.spec_degree(),
                eval_key_context.spec_moduli(),
            ),
        r.decomp_bits == decomp_bits,
        r.level == q_context.spec_levels() - 1,
        r.aux_level_count == eval_key_context.spec_levels() - q_context.spec_levels(),
        forall|i: int| 0 <= i < r.ksk@.len() ==> (#[trigger] r.ksk@[i]).scale_bits == 0,
        is_hybrid_key_for(
            r,
            |l: int, k: int| source.coeff(l, k) as int,
            target_secret_key.poly,
            q_context.spec_degree(),
            q_context.spec_moduli(),
            aux_moduli(*q_context, *eval_key_context),
        ),
{
    proof {
        q_context.lemma_context_facts();
        eval_key_context.lemma_context_facts();
    }
    let aux_level_count = eval_key_context.levels() - q_context.levels();
    let q_modulus = q_context.total_modulus();
    let aux_modulus = big_div(&eval_key_context.total_modulus(), &q_modulus);
    let ghost big_p = moduli_product(aux_moduli(*q_context, *eval_key_context));
    proof {
        let q_moduli = q_context.spec_moduli();
        let aux = aux_moduli(*q_context, *eval_key_context);
        assert(eval_key_context.spec_moduli() =~= q_moduli + aux) by {
            assert forall|l: int| 0 <= l < q_moduli.len() implies eval_key_context.spec_moduli()[l] == q_moduli[l] by {
                assert(eval_key_context.spec_primes().subrange(0, q_context.spec_levels() as int)[l]
                    == eval_key_context.spec_primes()[l]);
            }
        }
        lemma_product_concat(q_moduli, aux);
        lemma_div_multiples_vanish(moduli_product(aux) as int, moduli_product(q_moduli) as int);
        lemma_mul_is_commutative(moduli_product(aux) as int, moduli_product(q_moduli) as int);
        assert(aux_modulus@ == big_p);
    }
    let digits = num_decomp_digits(q_context.total_modulus_bits(), decomp_bits);
    let source_coeffs = reconstruct(source, q_context);
    let truncated_secret = target_secret_key.poly.truncate_levels(q_context.levels());
    proof {
        lemma_prefix_keeps_wf(target_secret_key.poly, truncated_secret, q_context.spec_levels());
        assert forall|l: int| 0 <= l < q_context.spec_levels() implies {
            &&& (#[trigger] truncated_secret.spec_residues()[l]).wf()
            &&& truncated_secret.spec_residues()[l].spec_degree() == q_context.spec_degree()
            &&& truncated_secret.spec_residues()[l].spec_modulus() == q_context.spec_moduli()[l]
        } by {
            lemma_prefix_keeps_wf(target_secret_key.poly, truncated_secret, q_context.spec_levels());
            assert(truncated_secret.spec_residues()[l]@ == target_secret_key.poly.spec_residues()[l]@);
            assert(target_secret_key.poly.spec_residues()[l].wf());
        }
    }
    let target_secret = lift_poly_to_context(&truncated_secret, q_context, eval_key_context);
    let ghost src_crt = nat_values(source_coeffs@);
    let ghost total = q_context.spec_total_modulus() as int;
    let ghost value = centered_values(src_crt, total);
    proof {
        let count = q_context.spec_levels();
        lemma_prefix_residues(truncated_secret, target_secret_key.poly, count);
        let crt = choose|crt: Seq<nat>|
            #[trigger] is_crt_of(crt, truncated_secret, q_context.spec_moduli()) && forall|l: int, k: int|
                0 <= l < eval_key_context.spec_levels() && 0 <= k < eval_key_context.spec_degree()
                    ==> #[trigger] target_secret.coeff(l, k) as int == centered(
                    crt[k] as int,
                    q_context.spec_total_modulus() as int,
                ) % (eval_key_context.spec_moduli()[l] as int);
        assert(truncated_secret.spec_residues()[0].spec_degree() == q_context.spec_degree());
        assert(target_secret_key.poly.spec_residues()[0].spec_degree() == q_context.spec_degree());
        assert forall|k: int| 0 <= k < crt.len() implies {
            &&& #[trigger] crt[k] < moduli_product(q_context.spec_moduli())
            &&& forall|l: int|
                0 <= l < q_context.spec_moduli().len() ==> crt[k] % (#[trigger] q_context.spec_moduli()[l] as nat)
                    == target_secret_key.poly.coeff(l, k)
        } by {
            assert forall|l: int| 0 <= l < q_context.spec_moduli().len() implies crt[k] % (
            #[trigger] q_context.spec_moduli()[l] as nat) == target_secret_key.poly.coeff(l, k) by {
                assert(truncated_secret.residue_coeffs()[l] == target_secret_key.poly.residue_coeffs()[l]);
                assert(truncated_secret.coeff(l, k) == truncated_secret.residue_coeffs()[l][k]);
                assert(target_secret_key.poly.coeff(l, k) == target_secret_key.poly.residue_coeffs()[l][k]);
            }
        }
        assert(is_crt_of(crt, target_secret_key.poly, q_context.spec_moduli()));
        assert(is_lift_of(target_secret, target_secret_key.poly, q_context.spec_moduli(), eval_key_context.spec_moduli()));
    }
    let mut base_power = BigNat::from_u64(1);
    let base = big_pow2(decomp_bits);
    let mut ksk: Vec<RnsCiphertext> = Vec::with_capacity(digits);
    proof {
        lemma_pow0(pow2(decomp_bits as nat) as int);
    }
    let mut i: usize = 0;
    while i < digits
        invariant
            eval_key_context.wf(),
            target_secret.has_shape(eval_key_context.spec_degree(), eval_key_context.spec_moduli()),
            i <= digits,
            ksk@.len() == i,
            forall|j: int|
                0 <= j < i ==> {
                    &&& (#[trigger] ksk@[j]).wf()
                    &&& ksk@[j].has_shape(eval_key_context.spec_degree(), eval_key_context.spec_moduli())
                    &&& ksk@[j].scale_bits == 0
                },
            base@ == pow2(decomp_bits as nat),
            base_power@ == pow(pow2(decomp_bits as nat) as int, i as nat),
            aux_modulus@ == big_p,
            q_modulus@ == total,
            source_coeffs@.len() == q_context.spec_degree(),
            eval_key_context.spec_degree() == q_context.spec_degree(),
            src_crt == nat_values(source_coeffs@),
            value == centered_values(src_crt, total),
            forall|j: int|
                0 <= j < i ==> is_hybrid_digit_for(
                    #[trigger] ksk@[j],
                    value,
                    big_p * pow(pow2(decomp_bits as nat) as int, j as nat),
                    target_secret,
                    eval_key_context.spec_degree(),
                    eval_key_context.spec_moduli(),
                ),
        decreases digits - i,
    {
        let mut coeffs: Vec<BigInteger> = Vec::with_capacity(source_coeffs.len());
        let mut k: usize = 0;
        while k < source_coeffs.len()
            invariant
                k <= source_coeffs@.len(),
                coeffs@.len() == k,
                forall|j: int|
                    0 <= j < k ==> (#[trigger] coeffs@[j])@ == centered(source_coeffs@[j]@ as int, q_modulus@ as int)
                        * base_power@ * aux_modulus@,
            decreases source_coeffs@.len() - k,
        {
            let centered_value = mod_q_biguint_to_centered(&source_coeffs[k], &q_modulus);
            coeffs.push(centered_value.mul_nat(&base_power).mul_nat(&aux_modulus));
            k += 1;
        }
        proof {
            eval_key_context.lemma_context_facts();
        }
        let plaintext = eval_key_context.poly_from_bigint_coeffs(coeffs.as_slice());
        let a1 = sample_uniform_poly(eval_key_context);
        let error = sample_error_poly(eval_key_context, sampler);
        let a1s = a1.multiply_ntt(&target_secret, eval_key_context);
        proof {
            lemma_shape_wf(plaintext, error, eval_key_context.spec_degree(), eval_key_context.spec_moduli());
        }
        let with_error = plaintext.add(&error);
        proof {
            lemma_shape_wf(with_error, a1s, eval_key_context.spec_degree(), eval_key_context.spec_moduli());
        }
        let a0 = with_error.sub(&a1s);
        proof {
            lemma_shape_wf(a0, a1, eval_key_context.spec_degree(), eval_key_context.spec_moduli());
        }
        let ct = RnsCiphertext::new(a0, a1, 0);
        proof {
            let factor = big_p * pow(pow2(decomp_bits as nat) as int, i as nat);
            let values = choose|values: Seq<i64>|
                values.len() == eval_key_context.spec_degree() && #[trigger] is_signed_lift(error, values);
            assert(is_gaussian_lift(error, eval_key_context.spec_degree()));
            assert forall|l: int, k: int|
                0 <= l < eval_key_context.spec_levels() && 0 <= k < eval_key_context.spec_degree() implies #[trigger] ct.c0.coeff(
                l,
                k,
            ) as int == (value(k) * factor + error.coeff(l, k) - prod_coeff(ct.c1, target_secret, l, k)) % (
            eval_key_context.spec_moduli()[l] as int) by {
                let p = eval_key_context.spec_moduli()[l] as int;
                assert(src_crt[k] == source_coeffs@[k]@);
                assert(coeffs@[k]@ == value(k) * pow(pow2(decomp_bits as nat) as int, i as nat) * big_p);
                let vk = value(k);
                let pw = pow(pow2(decomp_bits as nat) as int, i as nat);
                assert(vk * pw * big_p == vk * (big_p * pw)) by (nonlinear_arith);
                assert(plaintext.coeff(l, k) as int == coeffs@[k]@ % p);
                assert(a1s.coeff(l, k) as int == prod_coeff(a1, target_secret, l, k));
                lemma_keygen_algebra(
                    coeffs@[k]@,
                    error.coeff(l, k) as int,
                    prod_coeff(a1, target_secret, l, k),
                    with_error.coeff(l, k) as int,
                    a0.coeff(l, k) as int,
                    p,
                );
            }
            assert(is_hybrid_digit_for(
                ct,
                value,
                factor,
                target_secret,
                eval_key_context.spec_degree(),
                eval_key_context.spec_moduli(),
            ));
        }
        ksk.push(ct);
        proof {
            assert forall|j: int| 0 <= j < i + 1 implies is_hybrid_digit_for(
                #[trigger] ksk@[j],
                value,
                big_p * pow(pow2(decomp_bits as nat) as int, j as nat),
                target_secret,
                eval_key_context.spec_degree(),
                eval_key_context.spec_moduli(),
            ) by {
                if j == i {
                    assert(ksk@[j] == ct);
                }
            }
            reveal(pow);
            lemma_mul_is_commutative(base_power@ as int, base@ as int);
        }
        base_power = big_mul(&base_power, &base);
        i += 1;
    }
    let r = RnsKeySwitchingKey { ksk, decomp_bits, level: q_context.levels() - 1, aux_level_count };
    proof {
        assert(is_crt_of(src_crt, *source, q_context.spec_moduli()));
        let q_moduli = q_context.spec_moduli();
        let aux = aux_moduli(*q_context, *eval_key_context);
        assert(eval_key_context.spec_moduli() =~= q_moduli + aux) by {
            assert forall|l: int| 0 <= l < q_moduli.len() implies eval_key_context.spec_moduli()[l] == q_moduli[l] by {
                assert(eval_key_context.spec_primes().subrange(0, q_context.spec_levels() as int)[l]
                    == eval_key_context.spec_primes()[l]);
            }
        }
        assert(source.spec_residues()[0].spec_degree() == q_context.spec_degree());
        assert(crt_matches(src_crt, |l: int, k: int| source.coeff(l, k) as int, q_moduli, q_context.spec_degree()));
        assert forall|i: int| 0 <= i < r.ksk@.len() implies is_hybrid_digit_for(
            #[trigger] r.ksk@[i],
            centered_values(src_crt, q_context.spec_total_modulus() as int),
            moduli_product(aux_moduli(*q_context, *eval_key_context)) * pow(pow2(decomp_bits as nat) as int, i as nat),
            target_secret,
            eval_key_context.spec_degree(),
            eval_key_context.spec_moduli(),
        ) by {
            assert(r.ksk@[i] == ksk@[i]);
        }
    }
    r
}

/// The residue bookkeeping of one hybrid key digit:
/// `((x mod p + e) mod p - y) mod p == (x + e - y) mod p`.
proof fn lemma_keygen_algebra(x: int, e: int, y: int, with_error: int, a0: int, p: int)
    requires
        p > 0,
        with_error == (x % p + e) % p,
        a0 == (with_error - y) % p,
    ensures
        a0 == (x + e - y) % p,
{
    lemma_add_mod_noop(x, e, p);
    lemma_mod_twice(x, p);
    lemma_add_mod_noop(x % p, e, p);
    lemma_sub_mod_noop(x + e, y, p);
    lemma_sub_mod_noop((x % p + e) % p, y, p);
    lemma_mod_twice(x + e, p);
    lemma_mod_twice(x % p + e, p);
}

/// Key switching over the ciphertext basis: decompose `poly` into gadget
/// digits and accumulate `sum_i digit_i * ksk_i`.
pub(crate) fn keyswitch_rns(poly: &RnsPolynomial, ksk: &RnsKeySwitchingKey, context: &RnsContext) -> (r: RnsCiphertext)
    requires
        context.wf(),
        crt_invertible(context.spec_moduli()),
        poly.has_shape(context.spec_degree(), context.spec_moduli()),
        ksk.level + 1 == context.spec_levels(),
        1 <= ksk.decomp_bits <= 62,
        bit_length(context.spec_total_modulus()) + ksk.decomp_bits <= usize::MAX,
        ksk.ksk@.len() >= (bit_length(context.spec_total_modulus()) + ksk.decomp_bits - 1) / (ksk.decomp_bits as int),
        forall|i: int|
            0 <= i < ksk.ksk@.len() ==> (#[trigger] ksk.ksk@[i]).has_shape(context.spec_degree(), context.spec_moduli()),
    ensures
        r.wf(),
        r.has_shape(context.spec_degree(), context.spec_moduli()),
        r.scale_bits == context.spec_levels(),
        is_switch_of(r, *poly, *ksk, context.spec_degree(), context.spec_moduli()),
{
    proof {
        context.lemma_context_facts();
    }
    let digits = decompose_poly_rns_with_levels(poly, context, ksk.decomp_bits, ksk.ksk.len());
    let mut result_c0 = RnsPolynomial::zero(context);
    let mut result_c1 = RnsPolynomial::zero(context);
    proof {
        assert forall|l: int, k: int| 0 <= l < context.spec_levels() && 0 <= k < context.spec_degree() implies {
            &&& #[trigger] result_c0.coeff(l, k) as int == switched_sum(digits@, ksk.ksk@, false, l, k, 0) % (
            context.spec_moduli()[l] as int)
            &&& result_c1.coeff(l, k) as int == switched_sum(digits@, ksk.ksk@, true, l, k, 0) % (
            context.spec_moduli()[l] as int)
        } by {
            assert(result_c0.spec_residues()[l].spec_degree() == context.spec_degree());
            assert(result_c1.spec_residues()[l].spec_degree() == context.spec_degree());
            lemma_small_mod(0, context.spec_moduli()[l] as nat);
        }
    }
    let mut i: usize = 0;
    while i < digits.len()
        invariant
            context.wf(),
            is_gadget_decomposition(digits@, *poly, context.spec_degree(), context.spec_moduli(), ksk.decomp_bits as nat, ksk.ksk@.len()),
            digits@.len() == ksk.ksk@.len(),
            forall|d: int| 0 <= d < digits@.len() ==> (#[trigger] digits@[d]).has_shape(context.spec_degree(), context.spec_moduli()),
            forall|j: int|
                0 <= j < ksk.ksk@.len() ==> (#[trigger] ksk.ksk@[j]).has_shape(context.spec_degree(), context.spec_moduli()),
            result_c0.has_shape(context.spec_degree(), context.spec_moduli()),
            result_c1.has_shape(context.spec_degree(), context.spec_moduli()),
            i <= digits@.len(),
            forall|l: int, k: int|
                0 <= l < context.spec_levels() && 0 <= k < context.spec_degree() ==> {
                    &&& #[trigger] result_c0.coeff(l, k) as int == switched_sum(digits@, ksk.ksk@, false, l, k, i as nat)
                        % (context.spec_moduli()[l] as int)
                    &&& result_c1.coeff(l, k) as int == switched_sum(digits@, ksk.ksk@, true, l, k, i as nat) % (
                    context.spec_moduli()[l] as int)
                },
        decreases digits@.len() - i,
    {
        let term0 = digits[i].multiply_ntt(&ksk.ksk[i].c0, context);
        let term1 = digits[i].multiply_ntt(&ksk.ksk[i].c1, context);
        proof {
            context.lemma_context_facts();
            lemma_shape_wf(result_c0, term0, context.spec_degree(), context.spec_moduli());
            lemma_shape_wf(result_c1, term1, context.spec_degree(), context.spec_moduli());
        }
        let next0 = result_c0.add(&term0);
        let next1 = result_c1.add(&term1);
        proof {
            lemma_shape_of_sum(next0, result_c0, context.spec_degree(), context.spec_moduli());
            lemma_shape_of_sum(next1, result_c1, context.spec_degree(), context.spec_moduli());
            assert forall|l: int, k: int|
                0 <= l < context.spec_levels() && 0 <= k < context.spec_degree() implies {
                    &&& #[trigger] next0.coeff(l, k) as int == switched_sum(digits@, ksk.ksk@, false, l, k, (i + 1) as nat)
                        % (context.spec_moduli()[l] as int)
                    &&& next1.coeff(l, k) as int == switched_sum(digits@, ksk.ksk@, true, l, k, (i + 1) as nat) % (
                    context.spec_moduli()[l] as int)
                } by {
                let q = context.spec_moduli()[l] as int;
                assert(q > 0);
                assert(term0.coeff(l, k) == prod_coeff(digits@[i as int], ksk.ksk@[i as int].c0, l, k));
                assert(term1.coeff(l, k) == prod_coeff(digits@[i as int], ksk.ksk@[i as int].c1, l, k));
                assert(result_c0.coeff(l, k) as int == switched_sum(digits@, ksk.ksk@, false, l, k, i as nat) % q);
                lemma_accumulate(
                    switched_sum(digits@, ksk.ksk@, false, l, k, i as nat),
                    term0.coeff(l, k) as int,
                    result_c0.coeff(l, k) as int,
                    next0.coeff(l, k) as int,
                    q,
                );
                lemma_accumulate(
                    switched_sum(digits@, ksk.ksk@, true, l, k, i as nat),
                    term1.coeff(l, k) as int,
                    result_c1.coeff(l, k) as int,
                    next1.coeff(l, k) as int,
                    q,
                );
            }
        }
        result_c0 = next0;
        result_c1 = next1;
        i += 1;
    }
    proof {
        lemma_shape_wf(result_c0, result_c1, context.spec_degree(), context.spec_moduli());
    }
    let r = RnsCiphertext::new(result_c0, result_c1, poly.levels());
    proof {
        let ds = digits@;
        assert(is_gadget_decomposition(ds, *poly, context.spec_degree(), context.spec_moduli(), ksk.decomp_bits as nat, ksk.ksk@.len()));
        assert forall|l: int, k: int| 0 <= l < context.spec_levels() && 0 <= k < context.spec_degree() implies {
            &&& #[trigger] r.c0.coeff(l, k) as int == switched_sum(ds, ksk.ksk@, false, l, k, ksk.ksk@.len()) % (
            context.spec_moduli()[l] as int)
            &&& r.c1.coeff(l, k) as int == switched_sum(ds, ksk.ksk@, true, l, k, ksk.ksk@.len()) % (
            context.spec_moduli()[l] as int)
        } by {
            assert(result_c0.coeff(l, k) as int == switched_sum(ds, ksk.ksk@, false, l, k, i as nat) % (
            context.spec_moduli()[l] as int));
        }
        assert(is_switch_of(r, *poly, *ksk, context.spec_degree(), context.spec_moduli()));
    }
    r
}

/// One step of a reduced running sum: `acc = a mod q`, `t < q`, and
/// `next = (acc + t) mod q` give `next = (a + t) mod q`.
proof fn lemma_accumulate(a: int, t: int, acc: int, next: int, q: int)
    requires
        q > 0,
        0 <= t < q,
        acc == a % q,
        next == (acc + t) % q,
    ensures
        next == (a + t) % q,
{
    lemma_add_mod_noop(a, t, q);
    lemma_small_mod(t as nat, q as nat);
    lemma_mod_twice(a, q);
}

/// A well-formed polynomial compatible with one of a given shape has that shape.
proof fn lemma_shape_of_sum(r: RnsPolynomial, a: RnsPolynomial, degree: nat, moduli: Seq<u64>)
    requires
        a.has_shape(degree, moduli),
        r.wf(),
        r.compatible(&a),
    ensures
        r.has_shape(degree, moduli),
{
    assert forall|l: int| 0 <= l < moduli.len() implies {
        &&& (#[trigger] r.spec_residues()[l]).wf()
        &&& r.spec_residues()[l].spec_degree() == degree
        &&& r.spec_residues()[l].spec_modulus() == moduli[l]
    } by {
        assert(r.spec_residues()[l].compatible(&a.spec_residues()[l]));
        assert(r.spec_residues()[l].spec_modulus() == r.spec_moduli()[l]);
    }
}

/// `r` is the division of `acc` by `P`, the product of `aux`, with centered
/// rounding, back to `q_moduli`: `r * P = acc - centered(acc mod P)` modulo
/// each prime of `q_moduli`, for `crt` the values of `acc` modulo `P`.
pub open spec fn is_mod_down_of(
    r: RnsPolynomial,
    acc: RnsPolynomial,
    crt: Seq<nat>,
    q_moduli: Seq<u64>,
    aux: Seq<u64>,
    degree: nat,
) -> bool {
    &&& is_crt_of_part(crt, acc, q_moduli.len() as int, aux)
    &&& forall|l: int, k: int|
        0 <= l < q_moduli.len() && 0 <= k < degree ==> (#[trigger] r.coeff(l, k) as int * moduli_product(aux)) % (
        q_moduli[l] as int) == (acc.coeff(l, k) as int - centered(crt[k] as int, moduli_product(aux) as int)) % (
        q_moduli[l] as int)
}

/// `r` is the hybrid key switch of `poly` with `key`: the gadget digits `d_i`
/// of `poly` over `q_moduli`, lifted to `q_moduli + aux` as `lifted[i]`,
/// accumulate `acc = sum_i lifted[i] * key_i` there, and `r` is `acc`
/// divided by the product of `aux`.
pub open spec fn is_hybrid_switch_of(
    r: RnsCiphertext,
    poly: RnsPolynomial,
    key: RnsKeySwitchingKey,
    degree: nat,
    q_moduli: Seq<u64>,
    aux: Seq<u64>,
    count: nat,
) -> bool {
    exists|digits: Seq<RnsPolynomial>, lifted: Seq<RnsPolynomial>, acc: RnsCiphertext, crt0: Seq<nat>, crt1: Seq<nat>|
        #![trigger is_gadget_decomposition(digits, poly, degree, q_moduli, key.decomp_bits as nat, count), is_lifted_switch(lifted, digits, key, acc, degree, q_moduli, aux, count), is_mod_down_of(r.c0, acc.c0, crt0, q_moduli, aux, degree), is_mod_down_of(r.c1, acc.c1, crt1, q_moduli, aux, degree)]
        {
            &&& is_gadget_decomposition(digits, poly, degree, q_moduli, key.decomp_bits as nat, count)
            &&& is_lifted_switch(lifted, digits, key, acc, degree, q_moduli, aux, count)
            &&& is_balanced_lift(lifted, poly, degree, q_moduli, aux, key.decomp_bits as nat, count)
            &&& is_mod_down_of(r.c0, acc.c0, crt0, q_moduli, aux, degree)
            &&& is_mod_down_of(r.c1, acc.c1, crt1, q_moduli, aux, degree)
        }
}

/// Gadget digit `d` of coefficient `k`: the `d`-th balanced base-`2^decomp_bits`
/// digit of the centered value `crt[k]` modulo the product of `moduli`.
pub open spec fn gadget_digit(crt: Seq<nat>, moduli: Seq<u64>, decomp_bits: nat, count: nat, d: int, k: int) -> int {
    balanced_digits(centered(crt[k] as int, moduli_product(moduli) as int), pow2(decomp_bits) as int, count)[d]
}

/// Every lifted digit holds, modulo every prime of `q_moduli + aux` (the
/// auxiliary primes included), the balanced gadget digit of `poly` as an
/// integer.
pub open spec fn is_balanced_lift(
    lifted: Seq<RnsPolynomial>,
    poly: RnsPolynomial,
    degree: nat,
    q_moduli: Seq<u64>,
    aux: Seq<u64>,
    decomp_bits: nat,
    count: nat,
) -> bool {
    exists|crt: Seq<nat>|
        #[trigger] is_crt_of(crt, poly, q_moduli) && forall|d: int, l: int, k: int|
            0 <= d < count && 0 <= l < q_moduli.len() + aux.len() && 0 <= k < degree ==> #[trigger] lifted[d].coeff(
                l,
                k,
            ) as int == gadget_digit(crt, q_moduli, decomp_bits, count, d, k) % ((q_moduli + aux)[l] as int)
}

/// A balanced digit lies in `[-base/2, base/2]` (for an even base).
pub proof fn lemma_balanced_digit_small(v: int, base: int)
    requires
        base >= 2,
        base % 2 == 0,
    ensures
        -(base / 2) <= balanced_digit(v, base) <= base / 2,
{
    if v >= 0 {
        lemma_mod_bound(v, base);
    } else {
        lemma_mod_bound(-v, base);
    }
}

/// The hybrid switch `r` of `poly` in terms of integers: `acc` accumulates
/// `sum_i L_i * key_i` over `q_moduli + aux` and `r` is `acc` divided by `P`,
/// where each lifted digit `L_i` holds, modulo every prime (auxiliary ones
/// included), one integer per coefficient: a balanced base-`2^decomp_bits`
/// digit of the centered coefficient of `poly`, at most half the base in
/// size; the digits weighted by powers of the base give back that centered
/// coefficient up to the part above the `count` digits.
pub open spec fn hybrid_switch_in_digits(
    r: RnsCiphertext,
    poly: RnsPolynomial,
    key: RnsKeySwitchingKey,
    degree: nat,
    q_moduli: Seq<u64>,
    aux: Seq<u64>,
    count: nat,
    lifted: Seq<RnsPolynomial>,
    acc: RnsCiphertext,
    crt: Seq<nat>,
    crt0: Seq<nat>,
    crt1: Seq<nat>,
) -> bool {
    let base = pow2(key.decomp_bits as nat) as int;
    let total = moduli_product(q_moduli) as int;
    &&& is_crt_of(crt, poly, q_moduli)
    &&& lifted.len() == count
    &&& forall|i: int| 0 <= i < count ==> (#[trigger] lifted[i]).has_shape(degree, q_moduli + aux)
    &&& forall|d: int, l: int, k: int|
        0 <= d < count && 0 <= l < q_moduli.len() + aux.len() && 0 <= k < degree ==> #[trigger] lifted[d].coeff(l, k)
            as int == gadget_digit(crt, q_moduli, key.decomp_bits as nat, count, d, k) % ((q_moduli + aux)[l] as int)
    &&& forall|d: int, k: int|
        0 <= d < count && 0 <= k < degree ==> -(base / 2) <= #[trigger] gadget_digit(
            crt,
            q_moduli,
            key.decomp_bits as nat,
            count,
            d,
            k,
        ) <= base / 2
    &&& forall|k: int|
        0 <= k < degree ==> centered(#[trigger] crt[k] as int, total) == gadget_sum(
            balanced_digits(centered(crt[k] as int, total), base, count),
            base,
        ) + pow(base, count) * balanced_rest(centered(crt[k] as int, total), base, count)
    &&& acc.c0.has_shape(degree, q_moduli + aux)
    &&& acc.c1.has_shape(degree, q_moduli + aux)
    &&& forall|l: int, k: int|
        0 <= l < q_moduli.len() + aux.len() && 0 <= k < degree ==> {
            &&& #[trigger] acc.c0.coeff(l, k) as int == switched_sum(lifted, key.ksk@, false, l, k, count) % ((
            q_moduli + aux)[l] as int)
            &&& acc.c1.coeff(l, k) as int == switched_sum(lifted, key.ksk@, true, l, k, count) % ((q_moduli
                + aux)[l] as int)
        }
    &&& is_mod_down_of(r.c0, acc.c0, crt0, q_moduli, aux, degree)
    &&& is_mod_down_of(r.c1, acc.c1, crt1, q_moduli, aux, degree)
}

/// What a hybrid key switch computes, over the integers: its result is the
/// division by `P` of `sum_i L_i * key_i`, with every `L_i` the same small
/// balanced digit of `poly` modulo every prime of `Q * P` (see
/// `hybrid_switch_in_digits`).
pub proof fn lemma_hybrid_switch_digits(
    r: RnsCiphertext,
    poly: RnsPolynomial,
    key: RnsKeySwitchingKey,
    degree: nat,
    q_moduli: Seq<u64>,
    aux: Seq<u64>,
    count: nat,
)
    requires
        is_hybrid_switch_of(r, poly, key, degree, q_moduli, aux, count),
        key.decomp_bits >= 1,
    ensures
        exists|lifted: Seq<RnsPolynomial>, acc: RnsCiphertext, crt: Seq<nat>, crt0: Seq<nat>, crt1: Seq<nat>|
            #[trigger] hybrid_switch_in_digits(r, poly, key, degree, q_moduli, aux, count, lifted, acc, crt, crt0, crt1),
{
    let (digits, lifted, acc, crt0, crt1) = choose|
        digits: Seq<RnsPolynomial>,
        lifted: Seq<RnsPolynomial>,
        acc: RnsCiphertext,
        crt0: Seq<nat>,
        crt1: Seq<nat>,
    |
        #![trigger is_gadget_decomposition(digits, poly, degree, q_moduli, key.decomp_bits as nat, count), is_lifted_switch(lifted, digits, key, acc, degree, q_moduli, aux, count), is_mod_down_of(r.c0, acc.c0, crt0, q_moduli, aux, degree), is_mod_down_of(r.c1, acc.c1, crt1, q_moduli, aux, degree)]
        {
            &&& is_gadget_decomposition(digits, poly, degree, q_moduli, key.decomp_bits as nat, count)
            &&& is_lifted_switch(lifted, digits, key, acc, degree, q_moduli, aux, count)
            &&& is_balanced_lift(lifted, poly, degree, q_moduli, aux, key.decomp_bits as nat, count)
            &&& is_mod_down_of(r.c0, acc.c0, crt0, q_moduli, aux, degree)
            &&& is_mod_down_of(r.c1, acc.c1, crt1, q_moduli, aux, degree)
        };
    let crt = choose|crt: Seq<nat>|
        #[trigger] is_crt_of(crt, poly, q_moduli) && forall|d: int, l: int, k: int|
            0 <= d < count && 0 <= l < q_moduli.len() + aux.len() && 0 <= k < degree ==> #[trigger] lifted[d].coeff(
                l,
                k,
            ) as int == gadget_digit(crt, q_moduli, key.decomp_bits as nat, count, d, k) % ((q_moduli + aux)[l] as int);
    let base = pow2(key.decomp_bits as nat) as int;
    let total = moduli_product(q_moduli) as int;
    lemma_pow2_unfold(key.decomp_bits as nat);
    lemma_pow2_pos((key.decomp_bits - 1) as nat);
    assert(base >= 2 && base % 2 == 0);
    assert forall|d: int, k: int| 0 <= d < count && 0 <= k < degree implies -(base / 2) <= #[trigger] gadget_digit(
        crt,
        q_moduli,
        key.decomp_bits as nat,
        count,
        d,
        k,
    ) <= base / 2 by {
        lemma_balanced_digit_small(balanced_rest(centered(crt[k] as int, total), base, d as nat), base);
    }
    assert forall|k: int| 0 <= k < degree implies centered(#[trigger] crt[k] as int, total) == gadget_sum(
        balanced_digits(centered(crt[k] as int, total), base, count),
        base,
    ) + pow(base, count) * balanced_rest(centered(crt[k] as int, total), base, count) by {
        lemma_balanced_reconstruct(centered(crt[k] as int, total), base, count);
    }
    assert(hybrid_switch_in_digits(r, poly, key, degree, q_moduli, aux, count, lifted, acc, crt, crt0, crt1));
}

/// `lifted[i]` agrees with `digits[i]` on `q_moduli`, and `acc` accumulates
/// `sum_i lifted[i] * key_i` over `q_moduli + aux`.
pub open spec fn is_lifted_switch(
    lifted: Seq<RnsPolynomial>,
    digits: Seq<RnsPolynomial>,
    key: RnsKeySwitchingKey,
    acc: RnsCiphertext,
    degree: nat,
    q_moduli: Seq<u64>,
    aux: Seq<u64>,
    count: nat,
) -> bool {
    &&& lifted.len() == count
    &&& forall|i: int| 0 <= i < count ==> (#[trigger] lifted[i]).has_shape(degree, q_moduli + aux)
    &&& forall|i: int, l: int, k: int|
        0 <= i < count && 0 <= l < q_moduli.len() && 0 <= k < degree ==> #[trigger] lifted[i].coeff(l, k)
            == digits[i].coeff(l, k)
    &&& acc.c0.has_shape(degree, q_moduli + aux)
    &&& acc.c1.has_shape(degree, q_moduli + aux)
    &&& forall|l: int, k: int|
        0 <= l < q_moduli.len() + aux.len() && 0 <= k < degree ==> {
            &&& #[trigger] acc.c0.coeff(l, k) as int == switched_sum(lifted, key.ksk@, false, l, k, count) % ((
            q_moduli + aux)[l] as int)
            &&& acc.c1.coeff(l, k) as int == switched_sum(lifted, key.ksk@, true, l, k, count) % ((q_moduli
                + aux)[l] as int)
        }
}

/// A running switched sum depends only on the digits it has reached.
proof fn lemma_switched_sum_prefix(
    a: Seq<RnsPolynomial>,
    b: Seq<RnsPolynomial>,
    keys: Seq<RnsCiphertext>,
    second: bool,
    l: int,
    k: int,
    c: nat,
)
    requires
        c <= a.len(),
        c <= b.len(),
        forall|i: int| 0 <= i < c ==> #[trigger] a[i] == b[i],
    ensures
        switched_sum(a, keys, second, l, k, c) == switched_sum(b, keys, second, l, k, c),
    decreases c,
{
    if c > 0 {
        lemma_switched_sum_prefix(a, b, keys, second, l, k, (c - 1) as nat);
        assert(a[c - 1] == b[c - 1]);
    }
}

/// The centered representative of a reduced value modulo an odd `total` lies
/// within half of `total`.
proof fn lemma_centered_bound(c: int, total: int)
    requires
        total > 0,
        total % 2 == 1,
        0 <= c < total,
    ensures
        -(total / 2) <= centered(c, total) <= total / 2,
{
}

/// A reduced value congruent modulo an odd `total` to `v`, with `v` within
/// half of `total`, is centered back to `v` itself.
proof fn lemma_centered_exact(c: int, v: int, total: int)
    requires
        total > 0,
        total % 2 == 1,
        0 <= c < total,
        -(total / 2) <= v <= total / 2,
        (c - v) % total == 0,
    ensures
        centered(c, total) == v,
{
    lemma_fundamental_div_mod(c - v, total);
    let t = (c - v) / total;
    assert(c - v == total * t);
    if t >= 2 {
        assert(total * t >= total * 2) by (nonlinear_arith)
            requires
                t >= 2,
                total > 0,
        ;
    }
    if t <= -1 {
        assert(total * t <= -total) by (nonlinear_arith)
            requires
                t <= -1,
                total > 0,
        ;
    }
    lemma_mul_basics(total);
    if t == 1 {
        assert(c == v + total);
    } else {
        assert(t == 0);
        assert(c == v);
    }
}

/// The centered representative modulo a multiple of `q` is congruent to the value modulo `q`.
pub proof fn lemma_centered_mod(x: int, total: int, q: int)
    requires
        q > 0,
        total > 0,
        total % q == 0,
    ensures
        centered(x, total) % q == x % q,
{
    if centered(x, total) != x {
        lemma_fundamental_div_mod(total, q);
        let t = total / q;
        assert(total == t * q) by {
            lemma_mul_is_commutative(q, t);
        }
        assert(centered(x, total) == x + (-t) * q) by {
            lemma_mul_unary_negation(t, q);
        }
        lemma_mod_multiples_vanish(-t, x, q);
    }
}

/// A digit polynomial holding, modulo each prime of `q_moduli`, the gadget
/// digit `v` of coefficient `k`, is reconstructed modulo `Q` and centered back
/// to `v` itself: its CRT value differs from `v` by a multiple of `Q`, and both
/// lie within half of the odd `Q`.
proof fn lemma_lifted_digit_exact(
    value: nat,
    crt_p: Seq<nat>,
    digit: RnsPolynomial,
    q_moduli: Seq<u64>,
    decomp_bits: nat,
    count: nat,
    d: int,
    k: int,
)
    requires
        crt_invertible(q_moduli),
        forall|l: int| 0 <= l < q_moduli.len() ==> #[trigger] q_moduli[l] > 1,
        moduli_product(q_moduli) % 2 == 1,
        decomp_bits >= 1,
        0 <= d < count,
        0 <= k < crt_p.len(),
        crt_p[k] < moduli_product(q_moduli),
        value < moduli_product(q_moduli),
        forall|l: int| 0 <= l < q_moduli.len() ==> value % (#[trigger] q_moduli[l] as nat) == digit.coeff(l, k),
        forall|l: int|
            0 <= l < q_moduli.len() ==> #[trigger] digit.coeff(l, k) as int == gadget_digit(
                crt_p,
                q_moduli,
                decomp_bits,
                count,
                d,
                k,
            ) % (q_moduli[l] as int),
    ensures
        centered(value as int, moduli_product(q_moduli) as int) == gadget_digit(crt_p, q_moduli, decomp_bits, count, d, k),
{
    let total = moduli_product(q_moduli) as int;
    let v = gadget_digit(crt_p, q_moduli, decomp_bits, count, d, k);
    let x = centered(crt_p[k] as int, total);
    lemma_centered_bound(crt_p[k] as int, total);
    lemma_pow2_unfold(decomp_bits);
    lemma_pow2_pos((decomp_bits - 1) as nat);
    lemma_balanced_digits_bound(x, pow2(decomp_bits) as int, total / 2, count);
    assert(-(total / 2) <= v <= total / 2);
    assert forall|l: int| 0 <= l < q_moduli.len() implies (value as int) % (#[trigger] q_moduli[l] as int) == v % (
    q_moduli[l] as int) by {
        assert(digit.coeff(l, k) as int == v % (q_moduli[l] as int));
        lemma_mod_twice(v, q_moduli[l] as int);
    }
    lemma_crt_unique(q_moduli, value as int, v);
    lemma_centered_exact(value as int, v, total);
}

/// Hybrid key switching: decompose over `Q`, lift each digit to `Q * P`,
/// accumulate against the key, then divide by `P` back to `Q`.
#[verifier::spinoff_prover]
pub(crate) fn keyswitch_rns_hybrid(
    poly: &RnsPolynomial,
    ksk: &RnsKeySwitchingKey,
    q_context: &RnsContext,
    eval_key_context: &RnsContext,
) -> (r: RnsCiphertext)
    requires
        extends_basis(*q_context, *eval_key_context),
        crt_invertible(q_context.spec_moduli()),
        crt_invertible(aux_moduli(*q_context, *eval_key_context)),
        forall|l: int|
            0 <= l < q_context.spec_levels() ==> has_inverse(
                moduli_product(aux_moduli(*q_context, *eval_key_context)) % (#[trigger] q_context.spec_moduli()[l] as nat),
                q_context.spec_moduli()[l] as nat,
            ),
        poly.has_shape(q_context.spec_degree(), q_context.spec_moduli()),
        ksk.level + 1 == q_context.spec_levels(),
        ksk.aux_level_count == eval_key_context.spec_levels() - q_context.spec_levels(),
        1 <= ksk.decomp_bits <= 62,
        bit_length(q_context.spec_total_modulus()) + ksk.decomp_bits <= usize::MAX,
        ksk.ksk@.len() >= (bit_length(q_context.spec_total_modulus()) + ksk.decomp_bits - 1) / (ksk.decomp_bits as int),
        forall|i: int|
            0 <= i < ksk.ksk@.len() ==> (#[trigger] ksk.ksk@[i]).has_shape(
                eval_key_context.spec_degree(),
                eval_key_context.spec_moduli(),
            ),
    ensures
        r.wf(),
        r.has_shape(q_context.spec_degree(), q_context.spec_moduli()),
        r.scale_bits == q_context.spec_levels(),
        is_hybrid_switch_of(
            r,
            *poly,
            *ksk,
            q_context.spec_degree(),
            q_context.spec_moduli(),
            aux_moduli(*q_context, *eval_key_context),
            ((bit_length(q_context.spec_total_modulus()) + ksk.decomp_bits - 1) / (ksk.decomp_bits as int)) as nat,
        ),
{
    proof {
        q_context.lemma_context_facts();
        eval_key_context.lemma_context_facts();
    }
    let ghost q_moduli = q_context.spec_moduli();
    let ghost aux = aux_moduli(*q_context, *eval_key_context);
    let ghost eval_moduli = eval_key_context.spec_moduli();
    proof {
        assert(eval_moduli =~= q_moduli + aux) by {
            assert forall|l: int| 0 <= l < q_moduli.len() implies eval_moduli[l] == q_moduli[l] by {
                assert(eval_key_context.spec_primes().subrange(0, q_context.spec_levels() as int)[l]
                    == eval_key_context.spec_primes()[l]);
            }
        }
    }
    let active_digits = num_decomp_digits(q_context.total_modulus_bits(), ksk.decomp_bits);
    let digits = decompose_poly_rns_with_levels(poly, q_context, ksk.decomp_bits, active_digits);
    let ghost crt_p = choose|crt: Seq<nat>|
        #[trigger] is_crt_of(crt, *poly, q_moduli) && forall|d: int, l: int, k: int|
            0 <= d < active_digits && 0 <= l < q_moduli.len() && 0 <= k < q_context.spec_degree()
                ==> #[trigger] digits@[d].coeff(l, k) as int == balanced_digits(
                centered(crt[k] as int, moduli_product(q_moduli) as int),
                pow2(ksk.decomp_bits as nat) as int,
                active_digits as nat,
            )[d] % (q_moduli[l] as int);
    proof {
        q_context.lemma_context_odd();
        assert(poly.spec_residues()[0].spec_degree() == q_context.spec_degree());
        assert(crt_p.len() == q_context.spec_degree());
    }
    let mut result_c0 = RnsPolynomial::zero(eval_key_context);
    let mut result_c1 = RnsPolynomial::zero(eval_key_context);
    let ghost mut lifted_seq: Seq<RnsPolynomial> = Seq::empty();
    proof {
        assert forall|l: int, k: int|
            0 <= l < eval_key_context.spec_levels() && 0 <= k < eval_key_context.spec_degree() implies {
            &&& #[trigger] result_c0.coeff(l, k) as int == switched_sum(lifted_seq, ksk.ksk@, false, l, k, 0) % (
            eval_moduli[l] as int)
            &&& result_c1.coeff(l, k) as int == switched_sum(lifted_seq, ksk.ksk@, true, l, k, 0) % (
            eval_moduli[l] as int)
        } by {
            assert(result_c0.spec_residues()[l].spec_degree() == eval_key_context.spec_degree());
            assert(result_c1.spec_residues()[l].spec_degree() == eval_key_context.spec_degree());
            lemma_small_mod(0, eval_moduli[l] as nat);
        }
    }
    let mut i: usize = 0;
    while i < digits.len()
        invariant
            extends_basis(*q_context, *eval_key_context),
            crt_invertible(q_context.spec_moduli()),
            q_moduli == q_context.spec_moduli(),
            eval_moduli == eval_key_context.spec_moduli(),
            eval_moduli == q_moduli + aux,
            is_gadget_decomposition(
                digits@,
                *poly,
                q_context.spec_degree(),
                q_moduli,
                ksk.decomp_bits as nat,
                active_digits as nat,
            ),
            lifted_seq.len() == i,
            forall|j: int| 0 <= j < i ==> (#[trigger] lifted_seq[j]).has_shape(eval_key_context.spec_degree(), eval_moduli),
            is_crt_of(crt_p, *poly, q_moduli),
            crt_p.len() == q_context.spec_degree(),
            forall|d: int, l: int, k: int|
                0 <= d < active_digits && 0 <= l < q_moduli.len() && 0 <= k < q_context.spec_degree()
                    ==> #[trigger] digits@[d].coeff(l, k) as int == gadget_digit(
                    crt_p,
                    q_moduli,
                    ksk.decomp_bits as nat,
                    active_digits as nat,
                    d,
                    k,
                ) % (q_moduli[l] as int),
            forall|j: int, l: int, k: int|
                0 <= j < i && 0 <= l < eval_moduli.len() && 0 <= k < q_context.spec_degree()
                    ==> #[trigger] lifted_seq[j].coeff(l, k) as int == gadget_digit(
                    crt_p,
                    q_moduli,
                    ksk.decomp_bits as nat,
                    active_digits as nat,
                    j,
                    k,
                ) % (eval_moduli[l] as int),
            q_context.spec_total_modulus() % 2 == 1,
            1 <= ksk.decomp_bits,
            forall|j: int, l: int, k: int|
                0 <= j < i && 0 <= l < q_moduli.len() && 0 <= k < q_context.spec_degree() ==> #[trigger] lifted_seq[j].coeff(
                    l,
                    k,
                ) == digits@[j].coeff(l, k),
            forall|l: int, k: int|
                0 <= l < eval_key_context.spec_levels() && 0 <= k < eval_key_context.spec_degree() ==> {
                    &&& #[trigger] result_c0.coeff(l, k) as int == switched_sum(lifted_seq, ksk.ksk@, false, l, k, i as nat)
                        % (eval_moduli[l] as int)
                    &&& result_c1.coeff(l, k) as int == switched_sum(lifted_seq, ksk.ksk@, true, l, k, i as nat) % (
                    eval_moduli[l] as int)
                },
            digits@.len() == active_digits,
            active_digits <= ksk.ksk@.len(),
            forall|d: int|
                0 <= d < digits@.len() ==> (#[trigger] digits@[d]).has_shape(q_context.spec_degree(), q_context.spec_moduli()),
            forall|j: int|
                0 <= j < ksk.ksk@.len() ==> (#[trigger] ksk.ksk@[j]).has_shape(
                    eval_key_context.spec_degree(),
                    eval_key_context.spec_moduli(),
                ),
            result_c0.has_shape(eval_key_context.spec_degree(), eval_key_context.spec_moduli()),
            result_c1.has_shape(eval_key_context.spec_degree(), eval_key_context.spec_moduli()),
            i <= digits@.len(),
        decreases digits@.len() - i,
    {
        let lifted = lift_poly_to_context(&digits[i], q_context, eval_key_context);
        proof {
            let crt = choose|crt: Seq<nat>|
                #[trigger] is_crt_of(crt, digits@[i as int], q_moduli) && forall|l: int, k: int|
                    0 <= l < eval_key_context.spec_levels() && 0 <= k < eval_key_context.spec_degree()
                        ==> #[trigger] lifted.coeff(l, k) as int == centered(
                        crt[k] as int,
                        q_context.spec_total_modulus() as int,
                    ) % (eval_moduli[l] as int);
            assert forall|l: int, k: int| 0 <= l < q_moduli.len() && 0 <= k < q_context.spec_degree() implies
                #[trigger] lifted.coeff(l, k) == digits@[i as int].coeff(l, k) by {
                let q = q_moduli[l] as int;
                q_context.lemma_context_facts();
                assert(eval_moduli[l] == q_moduli[l]);
                assert(digits@[i as int].spec_residues()[0].spec_degree() == q_context.spec_degree());
                assert(crt[k] % (q_moduli[l] as nat) == digits@[i as int].coeff(l, k));
                lemma_centered_mod(crt[k] as int, q_context.spec_total_modulus() as int, q);
            }
            assert forall|l: int, k: int| 0 <= l < eval_moduli.len() && 0 <= k < q_context.spec_degree() implies
                #[trigger] lifted.coeff(l, k) as int == gadget_digit(
                crt_p,
                q_moduli,
                ksk.decomp_bits as nat,
                active_digits as nat,
                i as int,
                k,
            ) % (eval_moduli[l] as int) by {
                lemma_lifted_digit_exact(
                    crt[k],
                    crt_p,
                    digits@[i as int],
                    q_moduli,
                    ksk.decomp_bits as nat,
                    active_digits as nat,
                    i as int,
                    k,
                );
                assert(eval_key_context.spec_degree() == q_context.spec_degree());
            }
            let old_seq = lifted_seq;
            lifted_seq = lifted_seq.push(lifted);
            assert forall|l: int, k: int|
                0 <= l < eval_key_context.spec_levels() && 0 <= k < eval_key_context.spec_degree() implies {
                &&& switched_sum(lifted_seq, ksk.ksk@, false, l, k, i as nat) == switched_sum(
                    old_seq,
                    ksk.ksk@,
                    false,
                    l,
                    k,
                    i as nat,
                )
                &&& switched_sum(lifted_seq, ksk.ksk@, true, l, k, i as nat) == switched_sum(
                    old_seq,
                    ksk.ksk@,
                    true,
                    l,
                    k,
                    i as nat,
                )
            } by {
                lemma_switched_sum_prefix(lifted_seq, old_seq, ksk.ksk@, false, l, k, i as nat);
                lemma_switched_sum_prefix(lifted_seq, old_seq, ksk.ksk@, true, l, k, i as nat);
            }
        }
        let term0 = lifted.multiply_ntt(&ksk.ksk[i].c0, eval_key_context);
        let term1 = lifted.multiply_ntt(&ksk.ksk[i].c1, eval_key_context);
        proof {
            eval_key_context.lemma_context_facts();
            lemma_shape_wf(result_c0, term0, eval_key_context.spec_degree(), eval_key_context.spec_moduli());
            lemma_shape_wf(result_c1, term1, eval_key_context.spec_degree(), eval_key_context.spec_moduli());
        }
        let next0 = result_c0.add(&term0);
        let next1 = result_c1.add(&term1);
        proof {
            lemma_shape_of_sum(next0, result_c0, eval_key_context.spec_degree(), eval_key_context.spec_moduli());
            lemma_shape_of_sum(next1, result_c1, eval_key_context.spec_degree(), eval_key_context.spec_moduli());
            assert forall|l: int, k: int|
                0 <= l < eval_key_context.spec_levels() && 0 <= k < eval_key_context.spec_degree() implies {
                &&& #[trigger] next0.coeff(l, k) as int == switched_sum(lifted_seq, ksk.ksk@, false, l, k, (i + 1) as nat)
                    % (eval_moduli[l] as int)
                &&& next1.coeff(l, k) as int == switched_sum(lifted_seq, ksk.ksk@, true, l, k, (i + 1) as nat) % (
                eval_moduli[l] as int)
            } by {
                let q = eval_moduli[l] as int;
                assert(lifted_seq[i as int] == lifted);
                assert(term0.coeff(l, k) == prod_coeff(lifted, ksk.ksk@[i as int].c0, l, k));
                assert(term1.coeff(l, k) == prod_coeff(lifted, ksk.ksk@[i as int].c1, l, k));
                lemma_accumulate(
                    switched_sum(lifted_seq, ksk.ksk@, false, l, k, i as nat),
                    term0.coeff(l, k) as int,
                    result_c0.coeff(l, k) as int,
                    next0.coeff(l, k) as int,
                    q,
                );
                lemma_accumulate(
                    switched_sum(lifted_seq, ksk.ksk@, true, l, k, i as nat),
                    term1.coeff(l, k) as int,
                    result_c1.coeff(l, k) as int,
                    next1.coeff(l, k) as int,
                    q,
                );
            }
        }
        result_c0 = next0;
        result_c1 = next1;
        i += 1;
    }
    let q_total = q_context.total_modulus();
    let aux_modulus = big_div(&eval_key_context.total_modulus(), &q_total);
    proof {
        let q_moduli = q_context.spec_moduli();
        let aux = aux_moduli(*q_context, *eval_key_context);
        assert(eval_key_context.spec_moduli() =~= q_moduli + aux) by {
            assert forall|l: int| 0 <= l < q_moduli.len() implies eval_key_context.spec_moduli()[l] == q_moduli[l] by {
                assert(eval_key_context.spec_primes().subrange(0, q_context.spec_levels() as int)[l]
                    == eval_key_context.spec_primes()[l]);
            }
        }
        lemma_product_concat(q_moduli, aux);
        lemma_div_multiples_vanish(moduli_product(aux) as int, moduli_product(q_moduli) as int);
        lemma_mul_is_commutative(moduli_product(aux) as int, moduli_product(q_moduli) as int);
    }
    let c0 = mod_down_eval_to_q(&result_c0, q_context, eval_key_context, &aux_modulus);
    let c1 = mod_down_eval_to_q(&result_c1, q_context, eval_key_context, &aux_modulus);
    proof {
        lemma_shape_wf(c0, c1, q_context.spec_degree(), q_context.spec_moduli());
    }
    let r = RnsCiphertext::new(c0, c1, poly.levels());
    proof {
        let count = active_digits as nat;
        let acc = RnsCiphertext {
            c0: result_c0,
            c1: result_c1,
            scale_bits: 0,
            level: 0,
        };
        let crt0 = choose|crt: Seq<nat>|
            #[trigger] is_crt_of_part(crt, result_c0, q_context.spec_levels() as int, aux) && forall|l: int, k: int|
                0 <= l < q_context.spec_levels() && 0 <= k < q_context.spec_degree() ==> (#[trigger] c0.coeff(l, k) as int
                    * aux_modulus@) % (q_moduli[l] as int) == (result_c0.coeff(l, k) as int - centered(
                    crt[k] as int,
                    aux_modulus@ as int,
                )) % (q_moduli[l] as int);
        let crt1 = choose|crt: Seq<nat>|
            #[trigger] is_crt_of_part(crt, result_c1, q_context.spec_levels() as int, aux) && forall|l: int, k: int|
                0 <= l < q_context.spec_levels() && 0 <= k < q_context.spec_degree() ==> (#[trigger] c1.coeff(l, k) as int
                    * aux_modulus@) % (q_moduli[l] as int) == (result_c1.coeff(l, k) as int - centered(
                    crt[k] as int,
                    aux_modulus@ as int,
                )) % (q_moduli[l] as int);
        assert(is_mod_down_of(r.c0, acc.c0, crt0, q_moduli, aux, q_context.spec_degree()));
        assert(is_mod_down_of(r.c1, acc.c1, crt1, q_moduli, aux, q_context.spec_degree()));
        assert(eval_key_context.spec_degree() == q_context.spec_degree());
        assert forall|l: int, k: int| 0 <= l < q_moduli.len() + aux.len() && 0 <= k < q_context.spec_degree() implies {
            &&& #[trigger] acc.c0.coeff(l, k) as int == switched_sum(lifted_seq, ksk.ksk@, false, l, k, count) % ((
            q_moduli + aux)[l] as int)
            &&& acc.c1.coeff(l, k) as int == switched_sum(lifted_seq, ksk.ksk@, true, l, k, count) % ((q_moduli
                + aux)[l] as int)
        } by {
            assert(result_c0.coeff(l, k) as int == switched_sum(lifted_seq, ksk.ksk@, false, l, k, i as nat) % (
            eval_moduli[l] as int));
        }
        assert(is_lifted_switch(lifted_seq, digits@, *ksk, acc, q_context.spec_degree(), q_moduli, aux, count));
        assert(is_gadget_decomposition(digits@, *poly, q_context.spec_degree(), q_moduli, ksk.decomp_bits as nat, count));
        assert(is_balanced_lift(lifted_seq, *poly, q_context.spec_degree(), q_moduli, aux, ksk.decomp_bits as nat, count));
    }
    r
}

} // verus!
