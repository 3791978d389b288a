//! Homomorphic operations through a context: encryption, decryption,
//! multiplications, rescaling, key switching and relinearization.

use crate::math::bignum::bit_length;
use crate::poly::lemma_negacyclic_coeff_commutative;
use vstd::prelude::*;

use super::super::basis::moduli_product;
use super::super::ciphertexts::{has_prefix_shape, lemma_prefix_of_shape, lemma_prefix_shape, RnsCiphertext, RnsQuadraticCiphertext};
use super::super::keys::{ErrorSampler, RnsPublicKey, RnsSecretKey};
use super::super::keyswitching::{
    aux_moduli,
    is_hybrid_relinearization_of,
    is_hybrid_switch_of,
    is_relinearization_of,
    is_switch_of,
    keyswitch_rns,
    keyswitch_rns_hybrid,
    RnsKeySwitchingKey,
};
use super::super::keys::{is_gaussian_lift, is_ternary_lift};
use super::super::ops::{
    decrypt_quadratic_rns,
    decrypt_rns,
    encrypt_rns,
    is_decryption,
    is_encryption,
    is_quadratic_decryption,
    lemma_prefix_products,
    lemma_prefix_squares,
    is_rescaled,
    lemma_shape_wf,
    multiply_ciphertexts_rns,
    multiply_plain_rns,
    rescale_ciphertext_rns,
    rescale_quadratic_ciphertext_rns,
    rescaled_scale_bits,
};
use super::super::polynomial::{is_product, prod_coeff, RnsPolynomial};
use super::RnsCkksContext;

verus! {

impl RnsCkksContext {
    /// Encrypt at the top of the chain with the parameters' scale.
    pub fn encrypt<S: ErrorSampler>(&self, plaintext: &RnsPolynomial, public_key: &RnsPublicKey, sampler: &mut S) -> (r: RnsCiphertext)
        requires
            self.wf(),
            plaintext.has_shape(self.spec_degree(), self.moduli()),
            public_key.p0.has_shape(self.spec_degree(), self.moduli()),
            public_key.p1.has_shape(self.spec_degree(), self.moduli()),
        ensures
            self.holds(r),
            r.level == self.spec_levels() - 1,
            r.scale_bits == self.spec_params().scale_bits,
            exists|u: RnsPolynomial, e0: RnsPolynomial, e1: RnsPolynomial|
                {
                    &&& u.has_shape(self.spec_degree(), self.moduli())
                    &&& e0.has_shape(self.spec_degree(), self.moduli())
                    &&& e1.has_shape(self.spec_degree(), self.moduli())
                    &&& is_ternary_lift(u, self.spec_degree())
                    &&& is_gaussian_lift(e0, self.spec_degree())
                    &&& is_gaussian_lift(e1, self.spec_degree())
                    &&& #[trigger] is_encryption(r, *plaintext, *public_key, u, e0, e1)
                },
    {
        proof {
            self.rns_context.lemma_context_facts();
            assert(self.level_moduli((self.spec_levels() - 1) as nat) =~= self.moduli());
        }
        encrypt_rns(plaintext, public_key, &self.rns_context, self.params.scale_bits, sampler)
    }

    /// Decrypt over the ciphertext's primes: `c0 + c1 * s`.
    pub fn decrypt(&self, ciphertext: &RnsCiphertext, secret_key: &RnsSecretKey) -> (r: RnsPolynomial)
        requires
            self.wf(),
            self.holds(*ciphertext),
            has_prefix_shape(secret_key.poly, self.spec_degree(), self.level_moduli(ciphertext.level as nat)),
        ensures
            r.has_shape(self.spec_degree(), self.level_moduli(ciphertext.level as nat)),
            is_decryption(r, *ciphertext, secret_key.poly),
    {
        let context = self.level_basis(ciphertext.level);
        proof {
            assert(secret_key.poly.spec_residues()[0].wf());
        }
        let truncated = secret_key.poly.truncate_levels(ciphertext.c0.levels());
        proof {
            lemma_prefix_of_shape(
                secret_key.poly,
                truncated,
                self.spec_degree(),
                self.level_moduli(ciphertext.level as nat),
            );
        }
        let truncated_key = RnsSecretKey::new(truncated);
        let r = decrypt_rns(ciphertext, &truncated_key, &context);
        proof {
            lemma_prefix_products(ciphertext.c1, truncated, secret_key.poly, (ciphertext.level + 1) as nat);
        }
        r
    }

    /// Multiply by a plaintext over the ciphertext's primes; the scale doubles.
    pub fn mult_plain(&self, ciphertext: &RnsCiphertext, plain: &RnsPolynomial) -> (r: RnsCiphertext)
        requires
            self.wf(),
            self.holds(*ciphertext),
            plain.has_shape(self.spec_degree(), self.level_moduli(ciphertext.level as nat)),
            2 * ciphertext.scale_bits <= usize::MAX,
        ensures
            self.holds(r),
            r.level == ciphertext.level,
            r.scale_bits == 2 * ciphertext.scale_bits,
            is_product(r.c0, ciphertext.c0, *plain),
            is_product(r.c1, ciphertext.c1, *plain),
    {
        let context = self.level_basis(ciphertext.level);
        let multiplied = multiply_plain_rns(ciphertext, plain, &context);
        let next_scale_bits = ciphertext.scale_bits + ciphertext.scale_bits;
        RnsCiphertext { scale_bits: next_scale_bits, ..multiplied }
    }

    /// Divide by the last prime of the ciphertext's chain.
    pub fn rescale(&self, ciphertext: &RnsCiphertext) -> (r: RnsCiphertext)
        requires
            self.wf(),
            self.coprime_basis(),
            self.holds(*ciphertext),
            ciphertext.level > 0,
        ensures
            self.holds(r),
            is_rescaled(r.c0, ciphertext.c0),
            is_rescaled(r.c1, ciphertext.c1),
            r.scale_bits == rescaled_scale_bits(
                ciphertext.scale_bits as nat,
                bit_length(self.level_moduli(ciphertext.level as nat).last() as nat),
            ),
            r.level == ciphertext.level - 1,
    {
        let context = self.level_basis(ciphertext.level);
        proof {
            self.lemma_level_facts(ciphertext.level as nat);
        }
        let r = rescale_ciphertext_rns(ciphertext, &context);
        proof {
            assert(self.level_moduli(ciphertext.level as nat).drop_last() =~= self.level_moduli(r.level as nat));
            assert(r.c0.spec_moduli() =~= r.c0.spec_moduli());
        }
        r
    }

    /// Tensor product of two ciphertexts of the same level and scale.
    pub fn mult(&self, lhs: &RnsCiphertext, rhs: &RnsCiphertext) -> (r: RnsQuadraticCiphertext)
        requires
            self.wf(),
            self.holds(*lhs),
            self.holds(*rhs),
            lhs.level == rhs.level,
            lhs.scale_bits == rhs.scale_bits,
            lhs.scale_bits + rhs.scale_bits <= usize::MAX,
        ensures
            self.holds_quadratic(r),
            r.level == lhs.level,
            r.scale_bits == lhs.scale_bits + rhs.scale_bits,
            is_product(r.c0, lhs.c0, rhs.c0),
            is_product(r.c2, lhs.c1, rhs.c1),
            forall|l: int, k: int|
                0 <= l < lhs.c0.spec_levels() && 0 <= k < lhs.c0.spec_degree() ==> #[trigger] r.c1.coeff(l, k) == (
                prod_coeff(lhs.c0, rhs.c1, l, k) + prod_coeff(lhs.c1, rhs.c0, l, k)) % (lhs.c0.spec_moduli()[l] as int),
    {
        let context = self.level_basis(lhs.level);
        multiply_ciphertexts_rns(lhs, rhs, &context)
    }

    /// Decrypt a quadratic ciphertext: `c0 + c1 * s + c2 * s^2`.
    pub fn decrypt_quadratic(&self, ciphertext: &RnsQuadraticCiphertext, secret_key: &RnsSecretKey) -> (r:
        RnsPolynomial)
        requires
            self.wf(),
            self.holds_quadratic(*ciphertext),
            has_prefix_shape(secret_key.poly, self.spec_degree(), self.level_moduli(ciphertext.level as nat)),
        ensures
            r.has_shape(self.spec_degree(), self.level_moduli(ciphertext.level as nat)),
            is_quadratic_decryption(r, *ciphertext, secret_key.poly),
    {
        let context = self.level_basis(ciphertext.level);
        proof {
            assert(secret_key.poly.spec_residues()[0].wf());
        }
        let truncated = secret_key.poly.truncate_levels(ciphertext.c0.levels());
        proof {
            lemma_prefix_of_shape(
                secret_key.poly,
                truncated,
                self.spec_degree(),
                self.level_moduli(ciphertext.level as nat),
            );
        }
        let truncated_key = RnsSecretKey::new(truncated);
        let r = decrypt_quadratic_rns(ciphertext, &truncated_key, &context);
        proof {
            lemma_prefix_products(ciphertext.c1, truncated, secret_key.poly, (ciphertext.level + 1) as nat);
            lemma_prefix_squares(truncated, secret_key.poly, (ciphertext.level + 1) as nat);
        }
        r
    }

    /// Rescale the three components of a quadratic ciphertext.
    pub fn rescale_quadratic(&self, ciphertext: &RnsQuadraticCiphertext) -> (r: RnsQuadraticCiphertext)
        requires
            self.wf(),
            self.coprime_basis(),
            self.holds_quadratic(*ciphertext),
            ciphertext.level > 0,
        ensures
            self.holds_quadratic(r),
            is_rescaled(r.c0, ciphertext.c0),
            is_rescaled(r.c1, ciphertext.c1),
            is_rescaled(r.c2, ciphertext.c2),
            r.scale_bits == rescaled_scale_bits(
                ciphertext.scale_bits as nat,
                bit_length(self.level_moduli(ciphertext.level as nat).last() as nat),
            ),
            r.level == ciphertext.level - 1,
    {
        let context = self.level_basis(ciphertext.level);
        proof {
            self.lemma_level_facts(ciphertext.level as nat);
        }
        let r = rescale_quadratic_ciphertext_rns(ciphertext, &context);
        proof {
            assert(self.level_moduli(ciphertext.level as nat).drop_last() =~= self.level_moduli(r.level as nat));
        }
        r
    }

    /// Multiply, then rescale the quadratic result.
    pub fn mult_slots(&self, lhs: &RnsCiphertext, rhs: &RnsCiphertext) -> (r: RnsQuadraticCiphertext)
        requires
            self.wf(),
            self.coprime_basis(),
            self.holds(*lhs),
            self.holds(*rhs),
            lhs.level == rhs.level,
            lhs.level > 0,
            lhs.scale_bits == rhs.scale_bits,
            lhs.scale_bits + rhs.scale_bits <= usize::MAX,
        ensures
            self.holds_quadratic(r),
            r.level == lhs.level - 1,
            r.scale_bits == rescaled_scale_bits(
                (lhs.scale_bits + rhs.scale_bits) as nat,
                bit_length(self.level_moduli(lhs.level as nat).last() as nat),
            ),
            exists|product: RnsQuadraticCiphertext|
                {
                    &&& #[trigger] is_tensor_of(product, *lhs, *rhs)
                    &&& is_rescaled(r.c0, product.c0)
                    &&& is_rescaled(r.c1, product.c1)
                    &&& is_rescaled(r.c2, product.c2)
                },
    {
        let multiplied = self.mult(lhs, rhs);
        let r = self.rescale_quadratic(&multiplied);
        proof {
            assert(is_tensor_of(multiplied, *lhs, *rhs));
        }
        r
    }

    /// Key switching of a polynomial over the primes `0..=levels-1`, over
    /// those primes or, for a hybrid key, through the evaluation basis. The
    /// switched ciphertext carries the number of those primes as its scale
    /// label, deliberately: callers that add it to a ciphertext use only its
    /// residues.
    pub fn keyswitch(&self, poly: &RnsPolynomial, ksk: &RnsKeySwitchingKey) -> (r: RnsCiphertext)
        requires
            self.wf(),
            self.coprime_basis(),
            1 <= poly.spec_levels() <= self.spec_levels(),
            poly.has_shape(self.spec_degree(), self.level_moduli((poly.spec_levels() - 1) as nat)),
            self.switches_at(*ksk, (poly.spec_levels() - 1) as nat),
        ensures
            self.holds(r),
            r.level == poly.spec_levels() - 1,
            r.scale_bits == poly.spec_levels(),
            ksk.aux_level_count == 0 ==> is_switch_of(
                r,
                *poly,
                *ksk,
                self.spec_degree(),
                self.level_moduli((poly.spec_levels() - 1) as nat),
            ),
            ksk.aux_level_count != 0 ==> is_hybrid_switch_of(
                r,
                *poly,
                *ksk,
                self.spec_degree(),
                self.level_moduli((poly.spec_levels() - 1) as nat),
                self.aux_moduli(),
                ((bit_length(moduli_product(self.level_moduli((poly.spec_levels() - 1) as nat))) + ksk.decomp_bits - 1)
                    / (ksk.decomp_bits as int)) as nat,
            ),
    {
        let level = poly.levels() - 1;
        let q_context = self.level_basis(level);
        proof {
            self.lemma_level_facts(level as nat);
        }
        if ksk.aux_level_count == 0 {
            keyswitch_rns(poly, ksk, &q_context)
        } else {
            let eval_context = self.eval_level_basis(level);
            proof {
                self.lemma_eval_level_facts(level as nat);
                assert(eval_context.spec_primes().subrange(0, level + 1) =~= q_context.spec_primes());
                assert(aux_moduli(q_context, eval_context) =~= self.aux_moduli());
            }
            keyswitch_rns_hybrid(poly, ksk, &q_context, &eval_context)
        }
    }

    /// Fold the `c2` component back into a linear ciphertext with the relinearization key.
    pub fn relinearize(&self, ciphertext: &RnsQuadraticCiphertext, relin_key: &RnsKeySwitchingKey) -> (r:
        RnsCiphertext)
        requires
            self.wf(),
            self.coprime_basis(),
            self.holds_quadratic(*ciphertext),
            self.switches_at(*relin_key, ciphertext.level as nat),
        ensures
            self.holds(r),
            r.level == ciphertext.level,
            r.scale_bits == ciphertext.scale_bits,
            relin_key.aux_level_count == 0 ==> is_relinearization_of(
                r,
                *ciphertext,
                *relin_key,
                self.spec_degree(),
                self.level_moduli(ciphertext.level as nat),
            ),
            relin_key.aux_level_count != 0 ==> is_hybrid_relinearization_of(
                r,
                *ciphertext,
                *relin_key,
                self.spec_degree(),
                self.level_moduli(ciphertext.level as nat),
                self.aux_moduli(),
                ((bit_length(moduli_product(self.level_moduli(ciphertext.level as nat))) + relin_key.decomp_bits - 1)
                    / (relin_key.decomp_bits as int)) as nat,
            ),
    {
        let switched = self.keyswitch(&ciphertext.c2, relin_key);
        proof {
            let m = self.level_moduli(ciphertext.level as nat);
            lemma_shape_wf(ciphertext.c0, switched.c0, self.spec_degree(), m);
            lemma_shape_wf(ciphertext.c1, switched.c1, self.spec_degree(), m);
        }
        let c0 = ciphertext.c0.add(&switched.c0);
        let c1 = ciphertext.c1.add(&switched.c1);
        proof {
            let m = self.level_moduli(ciphertext.level as nat);
            lemma_sum_shape(c0, ciphertext.c0, self.spec_degree(), m);
            lemma_sum_shape(c1, ciphertext.c1, self.spec_degree(), m);
            lemma_shape_wf(c0, c1, self.spec_degree(), m);
        }
        let r = RnsCiphertext::new(c0, c1, ciphertext.scale_bits);
        proof {
            let m = self.level_moduli(ciphertext.level as nat);
            if relin_key.aux_level_count == 0 {
                assert(is_switch_of(switched, ciphertext.c2, *relin_key, self.spec_degree(), m));
                assert(is_relinearization_of(r, *ciphertext, *relin_key, self.spec_degree(), m));
            } else {
                let count = ((bit_length(moduli_product(m)) + relin_key.decomp_bits - 1) / (
                relin_key.decomp_bits as int)) as nat;
                assert(is_hybrid_switch_of(
                    switched,
                    ciphertext.c2,
                    *relin_key,
                    self.spec_degree(),
                    m,
                    self.aux_moduli(),
                    count,
                ));
                assert(is_hybrid_relinearization_of(
                    r,
                    *ciphertext,
                    *relin_key,
                    self.spec_degree(),
                    m,
                    self.aux_moduli(),
                    count,
                ));
            }
        }
        r
    }

    /// `r` relinearizes the quadratic `ct` with `key`, plainly or through the
    /// auxiliary primes, as the key was made.
    pub open spec fn relinearizes(&self, r: RnsCiphertext, ct: RnsQuadraticCiphertext, key: RnsKeySwitchingKey) -> bool {
        &&& r.level == ct.level
        &&& r.scale_bits == ct.scale_bits
        &&& key.aux_level_count == 0 ==> is_relinearization_of(
            r,
            ct,
            key,
            self.spec_degree(),
            self.level_moduli(ct.level as nat),
        )
        &&& key.aux_level_count != 0 ==> is_hybrid_relinearization_of(
            r,
            ct,
            key,
            self.spec_degree(),
            self.level_moduli(ct.level as nat),
            self.aux_moduli(),
            ((bit_length(moduli_product(self.level_moduli(ct.level as nat))) + key.decomp_bits - 1)
                / (key.decomp_bits as int)) as nat,
        )
    }

    /// `r` is `lhs * rhs` relinearized with `key` and divided by the last prime.
    pub open spec fn is_mult_relinearized_of(
        &self,
        r: RnsCiphertext,
        lhs: RnsCiphertext,
        rhs: RnsCiphertext,
        key: RnsKeySwitchingKey,
    ) -> bool {
        exists|product: RnsQuadraticCiphertext, relinearized: RnsCiphertext|
            #![trigger is_tensor_of(product, lhs, rhs), self.relinearizes(relinearized, product, key)]
            {
                &&& is_tensor_of(product, lhs, rhs)
                &&& self.relinearizes(relinearized, product, key)
                &&& is_rescaled(r.c0, relinearized.c0)
                &&& is_rescaled(r.c1, relinearized.c1)
            }
    }

    /// Multiply, relinearize, then rescale.
    pub fn mult_relinearized(
        &self,
        lhs: &RnsCiphertext,
        rhs: &RnsCiphertext,
        relin_key: &RnsKeySwitchingKey,
    ) -> (r: RnsCiphertext)
        requires
            self.wf(),
            self.coprime_basis(),
            self.holds(*lhs),
            self.holds(*rhs),
            lhs.level == rhs.level,
            lhs.level > 0,
            lhs.scale_bits == rhs.scale_bits,
            lhs.scale_bits + rhs.scale_bits <= usize::MAX,
            self.switches_at(*relin_key, lhs.level as nat),
        ensures
            self.holds(r),
            r.level == lhs.level - 1,
            r.scale_bits == rescaled_scale_bits(
                (lhs.scale_bits + rhs.scale_bits) as nat,
                bit_length(self.level_moduli(lhs.level as nat).last() as nat),
            ),
            self.is_mult_relinearized_of(r, *lhs, *rhs, *relin_key),
    {
        let multiplied = self.mult(lhs, rhs);
        let relinearized = self.relinearize(&multiplied, relin_key);
        let r = self.rescale(&relinearized);
        proof {
            assert(is_tensor_of(multiplied, *lhs, *rhs));
            assert(self.relinearizes(relinearized, multiplied, *relin_key));
        }
        r
    }
}

/// A well-formed polynomial compatible with one of a given shape has that shape.
pub(crate) proof fn lemma_sum_shape(r: RnsPolynomial, a: RnsPolynomial, degree: nat, moduli: Seq<u64>)
    requires
        a.has_shape(degree, moduli),
        r.wf(),
        r.compatible(&a),
    ensures
        r.has_shape(degree, moduli),
{
    assert forall|l: int| 0 <= l < moduli.len() implies {
        &&& (#[trigger] r.spec_residues()[l]).wf()
        &&& r.spec_residues()[l].spec_degree() == degree
        &&& r.spec_residues()[l].spec_modulus() == moduli[l]
    } by {
        assert(r.spec_residues()[l].compatible(&a.spec_residues()[l]));
        assert(r.spec_residues()[l].spec_modulus() == r.spec_moduli()[l]);
    }
}

/// `r` is the tensor product of `lhs` and `rhs`: `(a0 b0, a0 b1 + a1 b0, a1 b1)`
/// residue by residue, at their level and the sum of their scales.
pub open spec fn is_tensor_of(r: RnsQuadraticCiphertext, lhs: RnsCiphertext, rhs: RnsCiphertext) -> bool {
    &&& r.level == lhs.level
    &&& r.scale_bits == lhs.scale_bits + rhs.scale_bits
    &&& is_product(r.c0, lhs.c0, rhs.c0)
    &&& is_product(r.c2, lhs.c1, rhs.c1)
    &&& forall|l: int, k: int|
        0 <= l < lhs.c0.spec_levels() && 0 <= k < lhs.c0.spec_degree() ==> #[trigger] r.c1.coeff(l, k) == (prod_coeff(
            lhs.c0,
            rhs.c1,
            l,
            k,
        ) + prod_coeff(lhs.c1, rhs.c0, l, k)) % (lhs.c0.spec_moduli()[l] as int)
}

/// Ciphertext multiplication commutes: the tensor product of `lhs` and `rhs`
/// is the tensor product of `rhs` and `lhs`. Multiplying, or multiplying and
/// rescaling, in either order therefore meets the same contract.
pub proof fn lemma_tensor_commutes(product: RnsQuadraticCiphertext, lhs: RnsCiphertext, rhs: RnsCiphertext)
    requires
        lhs.wf(),
        rhs.wf(),
        lhs.c0.compatible(&rhs.c0),
        lhs.level == rhs.level,
        is_tensor_of(product, lhs, rhs),
    ensures
        is_tensor_of(product, rhs, lhs),
{
    let n = lhs.c0.spec_degree();
    assert forall|l: int, k: int| 0 <= l < lhs.c0.spec_levels() && 0 <= k < n implies {
        &&& prod_coeff(lhs.c0, rhs.c0, l, k) == prod_coeff(rhs.c0, lhs.c0, l, k)
        &&& prod_coeff(lhs.c1, rhs.c1, l, k) == prod_coeff(rhs.c1, lhs.c1, l, k)
        &&& prod_coeff(lhs.c0, rhs.c1, l, k) == prod_coeff(rhs.c1, lhs.c0, l, k)
        &&& prod_coeff(lhs.c1, rhs.c0, l, k) == prod_coeff(rhs.c0, lhs.c1, l, k)
    } by {
        assert(lhs.c0.spec_residues()[l].compatible(&rhs.c0.spec_residues()[l]));
        assert(lhs.c0.spec_residues()[l].compatible(&lhs.c1.spec_residues()[l]));
        assert(rhs.c0.spec_residues()[l].compatible(&rhs.c1.spec_residues()[l]));
        assert(lhs.c0.has_shape(n, lhs.c0.spec_moduli()));
        assert(rhs.c0.has_shape(rhs.c0.spec_degree(), rhs.c0.spec_moduli()));
        assert(lhs.c1.has_shape(lhs.c1.spec_degree(), lhs.c1.spec_moduli()));
        assert(rhs.c1.has_shape(rhs.c1.spec_degree(), rhs.c1.spec_moduli()));
        let a0 = lhs.c0.residue_coeffs()[l];
        let a1 = lhs.c1.residue_coeffs()[l];
        let b0 = rhs.c0.residue_coeffs()[l];
        let b1 = rhs.c1.residue_coeffs()[l];
        let q = lhs.c0.spec_moduli()[l] as nat;
        lemma_negacyclic_coeff_commutative(a0, b0, q, k);
        lemma_negacyclic_coeff_commutative(a1, b1, q, k);
        lemma_negacyclic_coeff_commutative(a0, b1, q, k);
        lemma_negacyclic_coeff_commutative(a1, b0, q, k);
    }
    assert(rhs.c0.spec_moduli() =~= lhs.c0.spec_moduli());
    assert(is_product(product.c0, rhs.c0, lhs.c0));
    assert forall|l: int| 0 <= l < rhs.c1.spec_levels() implies (#[trigger] product.c2.spec_residues()[l]).compatible(
        &rhs.c1.spec_residues()[l],
    ) by {
        assert(product.c2.spec_residues()[l].compatible(&lhs.c1.spec_residues()[l]));
        assert(lhs.c0.spec_residues()[l].compatible(&lhs.c1.spec_residues()[l]));
        assert(lhs.c0.spec_residues()[l].compatible(&rhs.c0.spec_residues()[l]));
        assert(rhs.c0.spec_residues()[l].compatible(&rhs.c1.spec_residues()[l]));
    }
    assert(rhs.c1.spec_degree() == lhs.c1.spec_degree()) by {
        assert(lhs.c0.spec_residues()[0].compatible(&lhs.c1.spec_residues()[0]));
        assert(lhs.c0.spec_residues()[0].compatible(&rhs.c0.spec_residues()[0]));
        assert(rhs.c0.spec_residues()[0].compatible(&rhs.c1.spec_residues()[0]));
    }
    assert(is_product(product.c2, rhs.c1, lhs.c1));
    assert forall|l: int, k: int| 0 <= l < rhs.c0.spec_levels() && 0 <= k < rhs.c0.spec_degree() implies #[trigger] product.c1.coeff(
        l,
        k,
    ) == (prod_coeff(rhs.c0, lhs.c1, l, k) + prod_coeff(rhs.c1, lhs.c0, l, k)) % (rhs.c0.spec_moduli()[l] as int) by {
        assert(product.c1.coeff(l, k) == (prod_coeff(lhs.c0, rhs.c1, l, k) + prod_coeff(lhs.c1, rhs.c0, l, k)) % (
        lhs.c0.spec_moduli()[l] as int));
    }
}

} // verus!
