//! Rotations through a context: raw Galois automorphisms, rotation keys, and
//! key-switched rotations that stay under the original secret.

use crate::math::arith::has_inverse;
use crate::math::bignum::bit_length;
use vstd::arithmetic::mul::*;
use vstd::prelude::*;

use super::super::basis::moduli_product;
use super::super::ciphertexts::{lemma_prefix_shape, RnsCiphertext, RnsQuadraticCiphertext};
use super::super::keys::{ErrorSampler, RnsPublicKey, RnsSecretKey};
use super::super::keyswitching::{
    galois_of,
    is_switch_of,
    is_switching_digit_for,
    keyswitch_rns,
    lemma_switching_digit_reindex,
    RnsKeySwitchingKey,
};
use super::super::RNS_DECOMP_BITS;
use vstd::arithmetic::power::pow;
use vstd::arithmetic::power2::pow2;
use super::super::ops::lemma_shape_wf;
use super::super::polynomial::{is_galois_image, RnsPolynomial};
use super::super::rotation::{
    galois_element_for_rotation,
    lemma_generator_invertible,
    rotation_element,
    RnsRotationKey,
    GALOIS_GENERATOR,
};
use super::ops::lemma_sum_shape;
use super::RnsCkksContext;

verus! {

/// `r` rotates `ct` with `key`: for the images `g0`, `g1` of `c0`, `c1` under
/// the key's Galois element and the key switch `w` of `g1` with the key
/// restricted to `moduli`, `r = (g0 + w0, w1)`, residue by residue.
pub open spec fn is_rotation_of(
    r: RnsCiphertext,
    ct: RnsCiphertext,
    key: RnsRotationKey,
    degree: nat,
    moduli: Seq<u64>,
) -> bool {
    exists|g0: RnsPolynomial, g1: RnsPolynomial, truncated: RnsKeySwitchingKey, w: RnsCiphertext|
        #![trigger is_galois_image(g0, ct.c0, key.galois_element as nat), is_galois_image(g1, ct.c1, key.galois_element as nat), is_switch_of(w, g1, truncated, degree, moduli)]
        {
            &&& is_galois_image(g0, ct.c0, key.galois_element as nat)
            &&& is_galois_image(g1, ct.c1, key.galois_element as nat)
            &&& g0.has_shape(degree, moduli)
            &&& g1.has_shape(degree, moduli)
            &&& RnsKeySwitchingKey::is_prefix_of(truncated, key.keyswitch_key, moduli.len() as int)
            &&& truncated.decomp_bits == key.keyswitch_key.decomp_bits
            &&& is_switch_of(w, g1, truncated, degree, moduli)
            &&& w.has_shape(degree, moduli)
            &&& forall|l: int, k: int|
                0 <= l < moduli.len() && 0 <= k < degree ==> {
                    &&& #[trigger] r.c0.coeff(l, k) as int == (g0.coeff(l, k) + w.c0.coeff(l, k)) % (moduli[l] as int)
                    &&& r.c1.coeff(l, k) == w.c1.coeff(l, k)
                }
        }
}

impl RnsCkksContext {
    /// Rotations are available: products of the degree with Galois elements
    /// fit in a `usize`. (The generator is then invertible modulo `2N`, the
    /// degree being a power of two: see `lemma_rotation_ready_generator`.)
    pub open spec fn rotation_ready(&self) -> bool {
        &&& 2 * self.spec_degree() <= usize::MAX
        &&& 2 * self.spec_degree() * self.spec_degree() <= usize::MAX
    }

    /// In a valid context the rotation generator is invertible modulo `2N`.
    pub proof fn lemma_rotation_ready_generator(&self)
        requires
            self.wf(),
        ensures
            has_inverse((GALOIS_GENERATOR as nat) % (2 * self.spec_degree()), 2 * self.spec_degree()),
    {
        self.rns_context.lemma_context_facts();
        lemma_generator_invertible(self.spec_degree());
    }

    /// A rotation key usable on a ciphertext at `level`: an odd Galois
    /// element below `2N`, and a key switching over the ciphertext primes up
    /// to at least `level`, with enough digits for the primes `0..=level`.
    pub open spec fn rotation_key_usable(&self, key: RnsRotationKey, level: nat) -> bool {
        let k = key.keyswitch_key;
        &&& key.galois_element % 2 == 1
        &&& key.galois_element < 2 * self.spec_degree()
        &&& k.wf()
        &&& k.aux_level_count == 0
        &&& level <= k.level < self.spec_levels()
        &&& 1 <= k.decomp_bits <= 62
        &&& bit_length(moduli_product(self.level_moduli(level))) + k.decomp_bits <= usize::MAX
        &&& k.ksk@.len() >= (bit_length(moduli_product(self.level_moduli(level))) + k.decomp_bits - 1) / (
        k.decomp_bits as int)
        &&& forall|i: int|
            0 <= i < k.ksk@.len() ==> (#[trigger] k.ksk@[i]).has_shape(self.spec_degree(), self.level_moduli(k.level as nat))
    }

    /// A Galois automorphism of a plaintext; the element must be reduced modulo `2N`.
    pub fn apply_galois_automorphism(&self, poly: &RnsPolynomial, galois_element: usize) -> (r: RnsPolynomial)
        requires
            self.wf(),
            self.rotation_ready(),
            poly.wf(),
            poly.spec_degree() == self.spec_degree(),
            galois_element < 2 * self.spec_degree(),
            galois_element % 2 == 1,
        ensures
            is_galois_image(r, *poly, galois_element as nat),
    {
        proof {
            lemma_mul_inequality(galois_element as int, 2 * self.spec_degree() as int, self.spec_degree() as int);
            lemma_mul_is_commutative(galois_element as int, self.spec_degree() as int);
        }
        proof {
            crate::poly::lemma_fewer_products(poly.spec_degree() as int, galois_element as int);
        }
        poly.apply_galois_automorphism(galois_element)
    }

    pub fn rotate_plain_raw(&self, poly: &RnsPolynomial, steps: isize) -> (r: RnsPolynomial)
        requires
            self.wf(),
            self.rotation_ready(),
            poly.wf(),
            poly.spec_degree() == self.spec_degree(),
            steps > isize::MIN,
        ensures
            is_galois_image(r, *poly, rotation_element(self.spec_degree(), steps as int)),
    {
        proof {
            self.rns_context.lemma_context_facts();
            self.lemma_rotation_ready_generator();
            let n = self.spec_degree() as int;
            assert(n * (2 * n) == 2 * n * n) by (nonlinear_arith);
        }
        poly.rotate_raw(self.params.poly_degree, steps)
    }

    pub fn rotate_secret_key_raw(&self, secret_key: &RnsSecretKey, steps: isize) -> (r: RnsSecretKey)
        requires
            self.wf(),
            self.rotation_ready(),
            secret_key.poly.wf(),
            secret_key.poly.spec_degree() == self.spec_degree(),
            steps > isize::MIN,
        ensures
            is_galois_image(r.poly, secret_key.poly, rotation_element(self.spec_degree(), steps as int)),
    {
        proof {
            self.rns_context.lemma_context_facts();
            self.lemma_rotation_ready_generator();
            let n = self.spec_degree() as int;
            assert(n * (2 * n) == 2 * n * n) by (nonlinear_arith);
        }
        secret_key.rotate_raw(self.params.poly_degree, steps)
    }

    pub fn rotate_raw(&self, ciphertext: &RnsCiphertext, steps: isize) -> (r: RnsCiphertext)
        requires
            self.wf(),
            self.rotation_ready(),
            ciphertext.wf(),
            ciphertext.c0.spec_degree() == self.spec_degree(),
            steps > isize::MIN,
        ensures
            r.wf(),
            is_galois_image(r.c0, ciphertext.c0, rotation_element(self.spec_degree(), steps as int)),
            is_galois_image(r.c1, ciphertext.c1, rotation_element(self.spec_degree(), steps as int)),
            r.scale_bits == ciphertext.scale_bits,
            r.level == ciphertext.level,
    {
        proof {
            self.rns_context.lemma_context_facts();
            self.lemma_rotation_ready_generator();
        }
        ciphertext.rotate_raw(self.params.poly_degree, steps)
    }

    pub fn rotate_quadratic_raw(&self, ciphertext: &RnsQuadraticCiphertext, steps: isize) -> (r:
        RnsQuadraticCiphertext)
        requires
            self.wf(),
            self.rotation_ready(),
            ciphertext.wf(),
            ciphertext.c0.spec_degree() == self.spec_degree(),
            steps > isize::MIN,
        ensures
            r.wf(),
            is_galois_image(r.c0, ciphertext.c0, rotation_element(self.spec_degree(), steps as int)),
            is_galois_image(r.c1, ciphertext.c1, rotation_element(self.spec_degree(), steps as int)),
            is_galois_image(r.c2, ciphertext.c2, rotation_element(self.spec_degree(), steps as int)),
            r.scale_bits == ciphertext.scale_bits,
            r.level == ciphertext.level,
    {
        proof {
            self.rns_context.lemma_context_facts();
            self.lemma_rotation_ready_generator();
        }
        ciphertext.rotate_raw(self.params.poly_degree, steps)
    }

    /// The Galois element of a rotation by `steps` slots.
    pub fn galois_element_for_rotation(&self, steps: isize) -> (r: usize)
        requires
            self.wf(),
            self.rotation_ready(),
            steps > isize::MIN,
        ensures
            r == rotation_element(self.spec_degree(), steps as int),
            r < 2 * self.spec_degree(),
            r % 2 == 1,
    {
        proof {
            self.rns_context.lemma_context_facts();
            self.lemma_rotation_ready_generator();
        }
        galois_element_for_rotation(self.params.poly_degree, steps)
    }

    /// A rotation key over the whole chain.
    pub fn generate_rotation_key<S: ErrorSampler>(&self, secret_key: &RnsSecretKey, public_key: &RnsPublicKey, steps: isize, sampler: &mut S) -> (r:
        RnsRotationKey)
        requires
            self.wf(),
            self.coprime_basis(),
            self.rotation_ready(),
            secret_key.poly.has_shape(self.spec_degree(), self.moduli()),
            public_key.p0.has_shape(self.spec_degree(), self.moduli()),
            public_key.p1.has_shape(self.spec_degree(), self.moduli()),
            steps > isize::MIN,
        ensures
            r.galois_element == rotation_element(self.spec_degree(), steps as int),
            self.generated_at(r.keyswitch_key, (self.spec_levels() - 1) as nat),
            r.keyswitch_key.aux_level_count == 0,
            forall|i: int|
                0 <= i < r.keyswitch_key.ksk@.len() ==> is_switching_digit_for(
                    #[trigger] r.keyswitch_key.ksk@[i],
                    galois_of(secret_key.poly, r.galois_element as nat),
                    pow(pow2(RNS_DECOMP_BITS as nat) as int, i as nat),
                    *public_key,
                    self.spec_degree(),
                    self.moduli(),
                ),
    {
        let galois_element = self.galois_element_for_rotation(steps);
        let rotated = self.rotated_secret(secret_key, galois_element);
        let keyswitch_key = self.generate_keyswitch_key(&rotated.poly, public_key, sampler);
        proof {
            assert forall|l: int, k: int| 0 <= l < self.moduli().len() && 0 <= k < self.spec_degree() implies #[trigger] (
            rotated.poly.coeff(l, k) as int) == galois_of(secret_key.poly, galois_element as nat)(l, k) by {
                assert(secret_key.poly.spec_residues()[0].spec_degree() == self.spec_degree());
            }
            assert forall|i: int| 0 <= i < keyswitch_key.ksk@.len() implies is_switching_digit_for(
                #[trigger] keyswitch_key.ksk@[i],
                galois_of(secret_key.poly, galois_element as nat),
                pow(pow2(RNS_DECOMP_BITS as nat) as int, i as nat),
                *public_key,
                self.spec_degree(),
                self.moduli(),
            ) by {
                lemma_switching_digit_reindex(
                    keyswitch_key.ksk@[i],
                    |l: int, k: int| rotated.poly.coeff(l, k) as int,
                    galois_of(secret_key.poly, galois_element as nat),
                    pow(pow2(RNS_DECOMP_BITS as nat) as int, i as nat),
                    *public_key,
                    *public_key,
                    self.spec_degree(),
                    self.moduli(),
                );
            }
        }
        RnsRotationKey { galois_element, keyswitch_key }
    }

    /// The secret under a Galois element, keeping its shape.
    fn rotated_secret(&self, secret_key: &RnsSecretKey, galois_element: usize) -> (r: RnsSecretKey)
        requires
            self.wf(),
            self.rotation_ready(),
            secret_key.poly.has_shape(self.spec_degree(), self.moduli()),
            galois_element < 2 * self.spec_degree(),
            galois_element % 2 == 1,
        ensures
            r.poly.has_shape(self.spec_degree(), self.moduli()),
            is_galois_image(r.poly, secret_key.poly, galois_element as nat),
    {
        proof {
            self.rns_context.lemma_context_facts();
            lemma_shape_wf(secret_key.poly, secret_key.poly, self.spec_degree(), self.moduli());
            lemma_mul_inequality(galois_element as int, 2 * self.spec_degree() as int, self.spec_degree() as int);
            lemma_mul_is_commutative(galois_element as int, self.spec_degree() as int);
        }
        proof {
            crate::poly::lemma_fewer_products(secret_key.poly.spec_degree() as int, galois_element as int);
        }
        let r = secret_key.apply_galois_automorphism(galois_element);
        proof {
            lemma_sum_shape(r.poly, secret_key.poly, self.spec_degree(), self.moduli());
        }
        r
    }

    /// A rotation key over the primes `0..=level`.
    pub fn generate_rotation_key_at_level<S: ErrorSampler>(
        &self,
        secret_key: &RnsSecretKey,
        public_key: &RnsPublicKey,
        steps: isize,
        level: usize,
        sampler: &mut S,
    ) -> (r: RnsRotationKey)
        requires
            self.wf(),
            self.coprime_basis(),
            self.rotation_ready(),
            level < self.spec_levels(),
            secret_key.poly.has_shape(self.spec_degree(), self.moduli()),
            public_key.p0.has_shape(self.spec_degree(), self.moduli()),
            public_key.p1.has_shape(self.spec_degree(), self.moduli()),
            steps > isize::MIN,
        ensures
            r.galois_element == rotation_element(self.spec_degree(), steps as int),
            self.generated_at(r.keyswitch_key, level as nat),
            r.keyswitch_key.aux_level_count == 0,
            forall|i: int|
                0 <= i < r.keyswitch_key.ksk@.len() ==> is_switching_digit_for(
                    #[trigger] r.keyswitch_key.ksk@[i],
                    galois_of(secret_key.poly, r.galois_element as nat),
                    pow(pow2(RNS_DECOMP_BITS as nat) as int, i as nat),
                    *public_key,
                    self.spec_degree(),
                    self.level_moduli(level as nat),
                ),
    {
        let galois_element = self.galois_element_for_rotation(steps);
        let rotated = self.rotated_secret(secret_key, galois_element);
        let keyswitch_key = self.generate_keyswitch_key_at_level(&rotated.poly, public_key, level, sampler);
        proof {
            assert forall|l: int, k: int| 0 <= l < self.level_moduli(level as nat).len() && 0 <= k < self.spec_degree() implies #[trigger] (
            rotated.poly.coeff(l, k) as int) == galois_of(secret_key.poly, galois_element as nat)(l, k) by {
                assert(secret_key.poly.spec_residues()[0].spec_degree() == self.spec_degree());
            }
            assert forall|i: int| 0 <= i < keyswitch_key.ksk@.len() implies is_switching_digit_for(
                #[trigger] keyswitch_key.ksk@[i],
                galois_of(secret_key.poly, galois_element as nat),
                pow(pow2(RNS_DECOMP_BITS as nat) as int, i as nat),
                *public_key,
                self.spec_degree(),
                self.level_moduli(level as nat),
            ) by {
                lemma_switching_digit_reindex(
                    keyswitch_key.ksk@[i],
                    |l: int, k: int| rotated.poly.coeff(l, k) as int,
                    galois_of(secret_key.poly, galois_element as nat),
                    pow(pow2(RNS_DECOMP_BITS as nat) as int, i as nat),
                    *public_key,
                    *public_key,
                    self.spec_degree(),
                    self.level_moduli(level as nat),
                );
            }
        }
        RnsRotationKey { galois_element, keyswitch_key }
    }

    /// A conjugation key (Galois element `2N - 1`) over the primes `0..=level`.
    pub fn generate_conjugation_key_at_level<S: ErrorSampler>(
        &self,
        secret_key: &RnsSecretKey,
        public_key: &RnsPublicKey,
        level: usize,
        sampler: &mut S,
    ) -> (r: RnsRotationKey)
        requires
            self.wf(),
            self.coprime_basis(),
            self.rotation_ready(),
            level < self.spec_levels(),
            secret_key.poly.has_shape(self.spec_degree(), self.moduli()),
            public_key.p0.has_shape(self.spec_degree(), self.moduli()),
            public_key.p1.has_shape(self.spec_degree(), self.moduli()),
        ensures
            r.galois_element == 2 * self.spec_degree() - 1,
            self.generated_at(r.keyswitch_key, level as nat),
            r.keyswitch_key.aux_level_count == 0,
            forall|i: int|
                0 <= i < r.keyswitch_key.ksk@.len() ==> is_switching_digit_for(
                    #[trigger] r.keyswitch_key.ksk@[i],
                    galois_of(secret_key.poly, r.galois_element as nat),
                    pow(pow2(RNS_DECOMP_BITS as nat) as int, i as nat),
                    *public_key,
                    self.spec_degree(),
                    self.level_moduli(level as nat),
                ),
    {
        proof {
            self.rns_context.lemma_context_facts();
        }
        let galois_element = 2 * self.params.poly_degree - 1;
        let rotated = self.rotated_secret(secret_key, galois_element);
        let keyswitch_key = self.generate_keyswitch_key_at_level(&rotated.poly, public_key, level, sampler);
        proof {
            assert forall|l: int, k: int| 0 <= l < self.level_moduli(level as nat).len() && 0 <= k < self.spec_degree() implies #[trigger] (
            rotated.poly.coeff(l, k) as int) == galois_of(secret_key.poly, galois_element as nat)(l, k) by {
                assert(secret_key.poly.spec_residues()[0].spec_degree() == self.spec_degree());
            }
            assert forall|i: int| 0 <= i < keyswitch_key.ksk@.len() implies is_switching_digit_for(
                #[trigger] keyswitch_key.ksk@[i],
                galois_of(secret_key.poly, galois_element as nat),
                pow(pow2(RNS_DECOMP_BITS as nat) as int, i as nat),
                *public_key,
                self.spec_degree(),
                self.level_moduli(level as nat),
            ) by {
                lemma_switching_digit_reindex(
                    keyswitch_key.ksk@[i],
                    |l: int, k: int| rotated.poly.coeff(l, k) as int,
                    galois_of(secret_key.poly, galois_element as nat),
                    pow(pow2(RNS_DECOMP_BITS as nat) as int, i as nat),
                    *public_key,
                    *public_key,
                    self.spec_degree(),
                    self.level_moduli(level as nat),
                );
            }
        }
        RnsRotationKey { galois_element, keyswitch_key }
    }

    /// Rotate by a rotation key: apply its automorphism, then switch the
    /// rotated `c1` back to the original secret.
    pub fn rotate(&self, ciphertext: &RnsCiphertext, rotation_key: &RnsRotationKey) -> (r: RnsCiphertext)
        requires
            self.wf(),
            self.coprime_basis(),
            self.rotation_ready(),
            self.holds(*ciphertext),
            self.rotation_key_usable(*rotation_key, ciphertext.level as nat),
        ensures
            self.holds(r),
            r.level == ciphertext.level,
            r.scale_bits == ciphertext.scale_bits,
            is_rotation_of(
                r,
                *ciphertext,
                *rotation_key,
                self.spec_degree(),
                self.level_moduli(ciphertext.level as nat),
            ),
    {
        let level = ciphertext.level;
        let ghost m = self.level_moduli(level as nat);
        proof {
            self.rns_context.lemma_context_facts();
            self.lemma_level_facts(level as nat);
            lemma_mul_inequality(
                rotation_key.galois_element as int,
                2 * self.spec_degree() as int,
                self.spec_degree() as int,
            );
            lemma_mul_is_commutative(rotation_key.galois_element as int, self.spec_degree() as int);
        }
        proof {
            crate::poly::lemma_fewer_products(ciphertext.c0.spec_degree() as int, rotation_key.galois_element as int);
        }
        let raw_rotated = ciphertext.apply_galois_automorphism(rotation_key.galois_element);
        let keyswitch_key = rotation_key.keyswitch_key.truncate_levels(ciphertext.c0.levels());
        let context = self.level_basis(level);
        proof {
            let k = rotation_key.keyswitch_key;
            assert(self.level_moduli(k.level as nat).subrange(0, level + 1) =~= m);
            assert forall|i: int| 0 <= i < keyswitch_key.ksk@.len() implies (#[trigger] keyswitch_key.ksk@[i]).has_shape(
                self.spec_degree(),
                m,
            ) by {
                let full = k.ksk@[i];
                assert(full.has_shape(self.spec_degree(), self.level_moduli(k.level as nat)));
                lemma_prefix_shape(
                    full.c0,
                    keyswitch_key.ksk@[i].c0,
                    (level + 1) as nat,
                    self.spec_degree(),
                    self.level_moduli(k.level as nat),
                );
                lemma_prefix_shape(
                    full.c1,
                    keyswitch_key.ksk@[i].c1,
                    (level + 1) as nat,
                    self.spec_degree(),
                    self.level_moduli(k.level as nat),
                );
            }
            lemma_sum_shape(raw_rotated.c1, ciphertext.c1, self.spec_degree(), m);
            lemma_sum_shape(raw_rotated.c0, ciphertext.c0, self.spec_degree(), m);
        }
        let switched = keyswitch_rns(&raw_rotated.c1, &keyswitch_key, &context);
        proof {
            lemma_shape_wf(raw_rotated.c0, switched.c0, self.spec_degree(), m);
        }
        let c0 = raw_rotated.c0.add(&switched.c0);
        proof {
            lemma_sum_shape(c0, raw_rotated.c0, self.spec_degree(), m);
            lemma_shape_wf(c0, switched.c1, self.spec_degree(), m);
        }
        let r = RnsCiphertext::new(c0, switched.c1, raw_rotated.scale_bits);
        proof {
            assert(is_galois_image(raw_rotated.c0, ciphertext.c0, rotation_key.galois_element as nat));
            assert(is_galois_image(raw_rotated.c1, ciphertext.c1, rotation_key.galois_element as nat));
            assert(is_switch_of(switched, raw_rotated.c1, keyswitch_key, self.spec_degree(), m));
            assert(m.len() == level + 1);
        }
        r
    }
}

} // verus!
