//! Key generation through a context: key pairs, key-switching keys and
//! relinearization keys, over the full chain or a prefix of it.

use vstd::prelude::*;

use super::super::basis::{prime_moduli, RnsContext};
use super::super::ciphertexts::lemma_prefix_shape;
use super::super::keys::{
    ErrorSampler,
    is_public_key_for,
    is_signed_lift,
    is_ternary,
    nonzero_count,
    rns_keygen,
    RnsKeyPair,
    RnsPublicKey,
    RnsSecretKey,
};
use super::super::keyswitching::{
    generate_keyswitch_key_rns,
    generate_keyswitch_key_rns_hybrid,
    aux_moduli,
    is_hybrid_key_for,
    is_switching_digit_for,
    lemma_hybrid_key_reindex,
    lemma_switching_digit_reindex,
    square_of,
    RnsKeySwitchingKey,
};
use super::super::polynomial::{lemma_prefix_residues, prod_coeff};
use super::super::polynomial::RnsPolynomial;
use vstd::arithmetic::power::pow;
use vstd::arithmetic::power2::pow2;
use super::super::RNS_DECOMP_BITS;
use super::RnsCkksContext;

verus! {

impl RnsCkksContext {
    /// The moduli of the whole ciphertext chain.
    pub open spec fn moduli(&self) -> Seq<u64> {
        prime_moduli(self.spec_params().primes@)
    }

    /// The ciphertext basis of the primes `0..=level`, which exists.
    pub(crate) fn level_basis(&self, level: usize) -> (r: RnsContext)
        requires
            self.wf(),
            level < self.spec_levels(),
        ensures
            r.wf(),
            r.spec_degree() == self.spec_degree(),
            r.spec_primes() == self.spec_params().primes@.subrange(0, level + 1),
            r.spec_moduli() == self.level_moduli(level as nat),
    {
        let levels = self.levels();
        assert(level < usize::MAX);
        match self.level_context(level) {
            Ok(c) => c,
            Err(_) => {
                proof {
                    assert(false);
                }
                self.rns_context.at_level(1).unwrap()
            },
        }
    }

    /// The evaluation basis of the primes `0..=level` and the auxiliary primes, which exists.
    pub(crate) fn eval_level_basis(&self, level: usize) -> (r: RnsContext)
        requires
            self.wf(),
            self.spec_params().aux_primes@.len() > 0,
            level < self.spec_levels(),
        ensures
            r.wf(),
            r.spec_degree() == self.spec_degree(),
            r.spec_primes() == self.spec_params().primes@.subrange(0, level + 1) + self.spec_params().aux_primes@,
            r.spec_moduli() == self.level_moduli(level as nat) + self.aux_moduli(),
    {
        match self.eval_key_level_context(level) {
            Ok(c) => {
                proof {
                    assert(c.spec_moduli() =~= self.level_moduli(level as nat) + self.aux_moduli());
                }
                c
            },
            Err(_) => {
                proof {
                    assert(false);
                }
                self.rns_context.at_level(1).unwrap()
            },
        }
    }

    /// A key pair with a secret of `hamming_weight` non-zero ternary coefficients.
    pub fn keygen<S: ErrorSampler>(&self, hamming_weight: usize, sampler: &mut S) -> (r: RnsKeyPair)
        requires
            self.wf(),
            hamming_weight <= self.spec_degree(),
        ensures
            r.secret_key.poly.has_shape(self.spec_degree(), self.moduli()),
            exists|values: Seq<i64>|
                values.len() == self.spec_degree() && is_ternary(values) && nonzero_count(values) == hamming_weight
                    && #[trigger] is_signed_lift(r.secret_key.poly, values),
            r.public_key.p1.has_shape(self.spec_degree(), self.moduli()),
            r.error.has_shape(self.spec_degree(), self.moduli()),
            exists|values: Seq<i64>| values.len() == self.spec_degree() && #[trigger] is_signed_lift(r.error, values),
            r.public_key.p0.has_shape(self.spec_degree(), self.moduli()),
            is_public_key_for(r.public_key, r.secret_key.poly, r.error),
    {
        rns_keygen(&self.rns_context, hamming_weight, sampler)
    }

    /// A key switching from `source` to the owner of `target_public_key` over the whole chain.
    pub fn generate_keyswitch_key<S: ErrorSampler>(&self, source: &RnsPolynomial, target_public_key: &RnsPublicKey, sampler: &mut S) -> (r:
        RnsKeySwitchingKey)
        requires
            self.wf(),
            self.coprime_basis(),
            source.has_shape(self.spec_degree(), self.moduli()),
            target_public_key.p0.has_shape(self.spec_degree(), self.moduli()),
            target_public_key.p1.has_shape(self.spec_degree(), self.moduli()),
        ensures
            self.generated_at(r, (self.spec_levels() - 1) as nat),
            r.aux_level_count == 0,
            forall|i: int|
                0 <= i < r.ksk@.len() ==> is_switching_digit_for(
                    #[trigger] r.ksk@[i],
                    |l: int, k: int| source.coeff(l, k) as int,
                    pow(pow2(RNS_DECOMP_BITS as nat) as int, i as nat),
                    *target_public_key,
                    self.spec_degree(),
                    self.moduli(),
                ),
    {
        proof {
            self.rns_context.lemma_context_facts();
            let top = (self.spec_levels() - 1) as nat;
            self.lemma_level_facts(top);
            assert(self.level_moduli(top) =~= self.moduli());
        }
        generate_keyswitch_key_rns(source, target_public_key, &self.rns_context, RNS_DECOMP_BITS, sampler)
    }

    /// A key switching over the primes `0..=level`.
    pub fn generate_keyswitch_key_at_level<S: ErrorSampler>(
        &self,
        source: &RnsPolynomial,
        target_public_key: &RnsPublicKey,
        level: usize,
        sampler: &mut S,
    ) -> (r: RnsKeySwitchingKey)
        requires
            self.wf(),
            self.coprime_basis(),
            level < self.spec_levels(),
            source.has_shape(self.spec_degree(), self.moduli()),
            target_public_key.p0.has_shape(self.spec_degree(), self.moduli()),
            target_public_key.p1.has_shape(self.spec_degree(), self.moduli()),
        ensures
            self.generated_at(r, level as nat),
            r.aux_level_count == 0,
            forall|i: int|
                0 <= i < r.ksk@.len() ==> is_switching_digit_for(
                    #[trigger] r.ksk@[i],
                    |l: int, k: int| source.coeff(l, k) as int,
                    pow(pow2(RNS_DECOMP_BITS as nat) as int, i as nat),
                    *target_public_key,
                    self.spec_degree(),
                    self.level_moduli(level as nat),
                ),
    {
        let level_context = self.level_basis(level);
        proof {
            self.lemma_level_facts(level as nat);
            assert(self.moduli().subrange(0, level + 1) =~= self.level_moduli(level as nat));
        }
        let truncated_source = source.truncate_levels(level + 1);
        let truncated_key = target_public_key.truncate_levels(level + 1);
        proof {
            let count = (level + 1) as nat;
            lemma_prefix_shape(*source, truncated_source, count, self.spec_degree(), self.moduli());
            lemma_prefix_shape(target_public_key.p0, truncated_key.p0, count, self.spec_degree(), self.moduli());
            lemma_prefix_shape(target_public_key.p1, truncated_key.p1, count, self.spec_degree(), self.moduli());
        }
        let r = generate_keyswitch_key_rns(&truncated_source, &truncated_key, &level_context, RNS_DECOMP_BITS, sampler);
        proof {
            let count = (level + 1) as nat;
            let m = self.level_moduli(level as nat);
            lemma_prefix_residues(truncated_key.p0, target_public_key.p0, count);
            lemma_prefix_residues(truncated_key.p1, target_public_key.p1, count);
            lemma_prefix_residues(truncated_source, *source, count);
            assert forall|l: int, k: int| 0 <= l < m.len() && 0 <= k < self.spec_degree() implies #[trigger] (
            truncated_source.coeff(l, k) as int) == source.coeff(l, k) as int by {
                assert(truncated_source.residue_coeffs()[l] == source.residue_coeffs()[l]);
            }
            assert forall|i: int| 0 <= i < r.ksk@.len() implies is_switching_digit_for(
                #[trigger] r.ksk@[i],
                |l: int, k: int| source.coeff(l, k) as int,
                pow(pow2(RNS_DECOMP_BITS as nat) as int, i as nat),
                *target_public_key,
                self.spec_degree(),
                m,
            ) by {
                lemma_switching_digit_reindex(
                    r.ksk@[i],
                    |l: int, k: int| truncated_source.coeff(l, k) as int,
                    |l: int, k: int| source.coeff(l, k) as int,
                    pow(pow2(RNS_DECOMP_BITS as nat) as int, i as nat),
                    truncated_key,
                    *target_public_key,
                    self.spec_degree(),
                    m,
                );
            }
        }
        r
    }

    /// A hybrid key switching over the whole chain and the auxiliary primes,
    /// to the owner of `target_secret_key`.
    pub(crate) fn generate_eval_keyswitch_key<S: ErrorSampler>(&self, source: &RnsPolynomial, target_secret_key: &RnsSecretKey, sampler: &mut S) -> (r:
        RnsKeySwitchingKey)
        requires
            self.wf(),
            self.coprime_basis(),
            self.spec_params().aux_primes@.len() > 0,
            source.has_shape(self.spec_degree(), self.moduli()),
            target_secret_key.poly.has_shape(self.spec_degree(), self.moduli()),
        ensures
            self.generated_at(r, (self.spec_levels() - 1) as nat),
            r.aux_level_count == self.spec_params().aux_primes@.len(),
            is_hybrid_key_for(
                r,
                |l: int, k: int| source.coeff(l, k) as int,
                target_secret_key.poly,
                self.spec_degree(),
                self.moduli(),
                self.aux_moduli(),
            ),
    {
        let top = self.rns_context.levels() - 1;
        proof {
            self.rns_context.lemma_context_facts();
            assert(self.level_moduli(top as nat) =~= self.moduli());
        }
        self.generate_eval_keyswitch_key_at_level(source, target_secret_key, top, sampler)
    }

    /// A hybrid key switching over the primes `0..=level` and the auxiliary primes.
    pub(crate) fn generate_eval_keyswitch_key_at_level<S: ErrorSampler>(
        &self,
        source: &RnsPolynomial,
        target_secret_key: &RnsSecretKey,
        level: usize,
        sampler: &mut S,
    ) -> (r: RnsKeySwitchingKey)
        requires
            self.wf(),
            self.coprime_basis(),
            self.spec_params().aux_primes@.len() > 0,
            level < source.spec_levels(),
            source.spec_levels() <= self.spec_levels(),
            source.has_shape(self.spec_degree(), self.level_moduli((source.spec_levels() - 1) as nat)),
            target_secret_key.poly.has_shape(self.spec_degree(), self.moduli()),
        ensures
            self.generated_at(r, level as nat),
            r.aux_level_count == self.spec_params().aux_primes@.len(),
            is_hybrid_key_for(
                r,
                |l: int, k: int| source.coeff(l, k) as int,
                target_secret_key.poly,
                self.spec_degree(),
                self.level_moduli(level as nat),
                self.aux_moduli(),
            ),
    {
        let level_context = self.level_basis(level);
        let eval_context = self.eval_level_basis(level);
        proof {
            self.lemma_level_facts(level as nat);
            self.lemma_eval_level_facts(level as nat);
            let top = (source.spec_levels() - 1) as nat;
            assert(self.level_moduli(top).subrange(0, level + 1) =~= self.level_moduli(level as nat));
            assert(eval_context.spec_primes().subrange(0, level + 1) =~= level_context.spec_primes());
            assert(eval_context.spec_moduli().subrange(level + 1, eval_context.spec_levels() as int)
                =~= self.aux_moduli());
            assert forall|l: int| 0 <= l < level + 1 implies {
                &&& (#[trigger] target_secret_key.poly.spec_residues()[l]).spec_modulus() == level_context.spec_moduli()[l]
                &&& target_secret_key.poly.spec_residues()[l].spec_degree() == level_context.spec_degree()
            } by {
                assert(self.moduli()[l] == self.level_moduli(level as nat)[l]);
            }
        }
        let truncated_source = source.truncate_levels(level + 1);
        proof {
            lemma_prefix_shape(
                *source,
                truncated_source,
                (level + 1) as nat,
                self.spec_degree(),
                self.level_moduli((source.spec_levels() - 1) as nat),
            );
        }
        let r = generate_keyswitch_key_rns_hybrid(
            &truncated_source,
            target_secret_key,
            &level_context,
            &eval_context,
            RNS_DECOMP_BITS,
            sampler,
        );
        proof {
            let m = self.level_moduli(level as nat);
            let top = (source.spec_levels() - 1) as nat;
            assert(aux_moduli(level_context, eval_context) =~= self.aux_moduli());
            lemma_prefix_residues(truncated_source, *source, (level + 1) as nat);
            assert forall|l: int, k: int| 0 <= l < m.len() && 0 <= k < self.spec_degree() implies #[trigger] (
            truncated_source.coeff(l, k) as int) == source.coeff(l, k) as int by {
                assert(truncated_source.residue_coeffs()[l] == source.residue_coeffs()[l]);
            }
            lemma_hybrid_key_reindex(
                r,
                |l: int, k: int| truncated_source.coeff(l, k) as int,
                |l: int, k: int| source.coeff(l, k) as int,
                target_secret_key.poly,
                self.spec_degree(),
                m,
                self.aux_moduli(),
            );
        }
        r
    }

    /// The relinearization key: a switching of `s^2` to `s`, hybrid when the
    /// parameters have auxiliary primes.
    pub fn generate_relinearization_key<S: ErrorSampler>(&self, secret_key: &RnsSecretKey, public_key: &RnsPublicKey, sampler: &mut S) -> (r:
        RnsKeySwitchingKey)
        requires
            self.wf(),
            self.coprime_basis(),
            secret_key.poly.has_shape(self.spec_degree(), self.moduli()),
            public_key.p0.has_shape(self.spec_degree(), self.moduli()),
            public_key.p1.has_shape(self.spec_degree(), self.moduli()),
        ensures
            self.generated_at(r, (self.spec_levels() - 1) as nat),
            r.aux_level_count == self.spec_params().aux_primes@.len(),
            r.aux_level_count == 0 ==> forall|i: int|
                0 <= i < r.ksk@.len() ==> is_switching_digit_for(
                    #[trigger] r.ksk@[i],
                    square_of(secret_key.poly),
                    pow(pow2(RNS_DECOMP_BITS as nat) as int, i as nat),
                    *public_key,
                    self.spec_degree(),
                    self.moduli(),
                ),
            r.aux_level_count != 0 ==> is_hybrid_key_for(
                r,
                square_of(secret_key.poly),
                secret_key.poly,
                self.spec_degree(),
                self.moduli(),
                self.aux_moduli(),
            ),
    {
        proof {
            self.rns_context.lemma_context_facts();
        }
        let source = secret_key.poly.multiply_ntt(&secret_key.poly, &self.rns_context);
        if self.has_aux_basis() {
            let r = self.generate_eval_keyswitch_key(&source, secret_key, sampler);
            proof {
                lemma_hybrid_key_reindex(
                    r,
                    |l: int, k: int| source.coeff(l, k) as int,
                    square_of(secret_key.poly),
                    secret_key.poly,
                    self.spec_degree(),
                    self.moduli(),
                    self.aux_moduli(),
                );
            }
            r
        } else {
            let r = self.generate_keyswitch_key(&source, public_key, sampler);
            proof {
                assert forall|i: int| 0 <= i < r.ksk@.len() implies is_switching_digit_for(
                    #[trigger] r.ksk@[i],
                    square_of(secret_key.poly),
                    pow(pow2(RNS_DECOMP_BITS as nat) as int, i as nat),
                    *public_key,
                    self.spec_degree(),
                    self.moduli(),
                ) by {
                    lemma_switching_digit_reindex(
                        r.ksk@[i],
                        |l: int, k: int| source.coeff(l, k) as int,
                        square_of(secret_key.poly),
                        pow(pow2(RNS_DECOMP_BITS as nat) as int, i as nat),
                        *public_key,
                        *public_key,
                        self.spec_degree(),
                        self.moduli(),
                    );
                }
            }
            r
        }
    }

    /// The relinearization key over the primes `0..=level`.
    pub fn generate_relinearization_key_at_level<S: ErrorSampler>(
        &self,
        secret_key: &RnsSecretKey,
        public_key: &RnsPublicKey,
        level: usize,
        sampler: &mut S,
    ) -> (r: RnsKeySwitchingKey)
        requires
            self.wf(),
            self.coprime_basis(),
            level < self.spec_levels(),
            secret_key.poly.has_shape(self.spec_degree(), self.moduli()),
            public_key.p0.has_shape(self.spec_degree(), self.moduli()),
            public_key.p1.has_shape(self.spec_degree(), self.moduli()),
        ensures
            self.generated_at(r, level as nat),
            r.aux_level_count == self.spec_params().aux_primes@.len(),
            r.aux_level_count == 0 ==> forall|i: int|
                0 <= i < r.ksk@.len() ==> is_switching_digit_for(
                    #[trigger] r.ksk@[i],
                    square_of(secret_key.poly),
                    pow(pow2(RNS_DECOMP_BITS as nat) as int, i as nat),
                    *public_key,
                    self.spec_degree(),
                    self.level_moduli(level as nat),
                ),
            r.aux_level_count != 0 ==> is_hybrid_key_for(
                r,
                square_of(secret_key.poly),
                secret_key.poly,
                self.spec_degree(),
                self.level_moduli(level as nat),
                self.aux_moduli(),
            ),
    {
        let level_context = self.level_basis(level);
        proof {
            self.lemma_level_facts(level as nat);
            assert(self.moduli().subrange(0, level + 1) =~= self.level_moduli(level as nat));
        }
        let truncated_secret = secret_key.poly.truncate_levels(level + 1);
        proof {
            lemma_prefix_shape(secret_key.poly, truncated_secret, (level + 1) as nat, self.spec_degree(), self.moduli());
        }
        let source = truncated_secret.multiply_ntt(&truncated_secret, &level_context);
        if self.has_aux_basis() {
            let r = self.generate_eval_keyswitch_key_at_level(&source, secret_key, level, sampler);
            proof {
                let count = (level + 1) as nat;
                let m = self.level_moduli(level as nat);
                lemma_prefix_residues(truncated_secret, secret_key.poly, count);
                assert forall|l: int, k: int| 0 <= l < m.len() && 0 <= k < self.spec_degree() implies #[trigger] source.coeff(
                    l,
                    k,
                ) as int == square_of(secret_key.poly)(l, k) by {
                    assert(source.coeff(l, k) == prod_coeff(truncated_secret, truncated_secret, l, k));
                    assert(truncated_secret.residue_coeffs()[l] == secret_key.poly.residue_coeffs()[l]);
                }
                lemma_hybrid_key_reindex(
                    r,
                    |l: int, k: int| source.coeff(l, k) as int,
                    square_of(secret_key.poly),
                    secret_key.poly,
                    self.spec_degree(),
                    m,
                    self.aux_moduli(),
                );
            }
            r
        } else {
            let target_public_key = public_key.truncate_levels(level + 1);
            proof {
                let count = (level + 1) as nat;
                lemma_prefix_shape(public_key.p0, target_public_key.p0, count, self.spec_degree(), self.moduli());
                lemma_prefix_shape(public_key.p1, target_public_key.p1, count, self.spec_degree(), self.moduli());
            }
            let r = generate_keyswitch_key_rns(&source, &target_public_key, &level_context, RNS_DECOMP_BITS, sampler);
            proof {
                let count = (level + 1) as nat;
                let m = self.level_moduli(level as nat);
                lemma_prefix_residues(target_public_key.p0, public_key.p0, count);
                lemma_prefix_residues(target_public_key.p1, public_key.p1, count);
                lemma_prefix_residues(truncated_secret, secret_key.poly, count);
                assert forall|l: int, k: int| 0 <= l < m.len() && 0 <= k < self.spec_degree() implies #[trigger] source.coeff(
                    l,
                    k,
                ) as int == prod_coeff(secret_key.poly, secret_key.poly, l, k) by {
                    assert(source.coeff(l, k) == prod_coeff(truncated_secret, truncated_secret, l, k));
                    assert(truncated_secret.residue_coeffs()[l] == secret_key.poly.residue_coeffs()[l]);
                }
                assert forall|i: int| 0 <= i < r.ksk@.len() implies is_switching_digit_for(
                    #[trigger] r.ksk@[i],
                    square_of(secret_key.poly),
                    pow(pow2(RNS_DECOMP_BITS as nat) as int, i as nat),
                    *public_key,
                    self.spec_degree(),
                    m,
                ) by {
                    lemma_switching_digit_reindex(
                        r.ksk@[i],
                        |l: int, k: int| source.coeff(l, k) as int,
                        square_of(secret_key.poly),
                        pow(pow2(RNS_DECOMP_BITS as nat) as int, i as nat),
                        target_public_key,
                        *public_key,
                        self.spec_degree(),
                        m,
                    );
                }
            }
            r
        }
    }
}

} // verus!
