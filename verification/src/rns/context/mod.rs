//! The RNS CKKS context: a parameter set with its ciphertext basis, its
//! optional auxiliary basis and the extended evaluation basis built from both.

use vstd::prelude::*;

use crate::math::arith::has_inverse;
use crate::math::bignum::bit_length;

use super::basis::{crt_invertible, moduli_product, prime_moduli, rns_basis_ok, RnsContext, RnsPrime};
use super::coprime::{
    lemma_coprime_chain,
    lemma_coprime_part,
    lemma_coprime_prefix_then_tail,
    lemma_coprime_split,
    moduli_above_one,
    pairwise_coprime,
};
use super::keyswitching::RnsKeySwitchingKey;
use super::ops::last_modulus_invertible;
use super::ciphertexts::{RnsCiphertext, RnsQuadraticCiphertext};
use super::RNS_DECOMP_BITS;

pub mod construction;
pub mod keys;
pub mod ops;
pub mod params;
pub mod rotation;

verus! {

/// A CKKS parameter set: ring degree, ciphertext primes, auxiliary
/// key-switching primes and the encoding scale in bits.
#[derive(Clone, Debug)]
pub struct RnsCkksParams {
    pub poly_degree: usize,
    pub primes: Vec<RnsPrime>,
    pub aux_primes: Vec<RnsPrime>,
    pub scale_bits: usize,
}

/// The conditions under which `RnsCkksParams::validate` succeeds: a scale of
/// 1 to 59 bits, auxiliary moduli distinct from the ciphertext moduli, a valid
/// ciphertext basis, and, with auxiliary primes, valid auxiliary and extended bases.
pub open spec fn params_ok(p: RnsCkksParams) -> bool {
    &&& 0 < p.scale_bits < 60
    &&& forall|i: int, j: int|
        0 <= i < p.aux_primes@.len() && 0 <= j < p.primes@.len() ==> (#[trigger] p.aux_primes@[i]).modulus
            != (#[trigger] p.primes@[j]).modulus
    &&& rns_basis_ok(p.poly_degree as nat, p.primes@)
    &&& p.aux_primes@.len() > 0 ==> {
        &&& rns_basis_ok(p.poly_degree as nat, p.aux_primes@)
        &&& rns_basis_ok(p.poly_degree as nat, p.primes@ + p.aux_primes@)
    }
}

/// A validated parameter set together with the bases it defines.
#[derive(Clone, Debug)]
pub struct RnsCkksContext {
    params: RnsCkksParams,
    rns_context: RnsContext,
    aux_context: Option<RnsContext>,
    eval_key_context: Option<RnsContext>,
}

impl RnsCkksContext {
    pub closed spec fn spec_params(&self) -> RnsCkksParams {
        self.params
    }

    pub closed spec fn spec_rns(&self) -> RnsContext {
        self.rns_context
    }

    pub closed spec fn spec_aux(&self) -> Option<RnsContext> {
        self.aux_context
    }

    pub closed spec fn spec_eval(&self) -> Option<RnsContext> {
        self.eval_key_context
    }

    /// Ring degree `N`.
    pub open spec fn spec_degree(&self) -> nat {
        self.spec_params().poly_degree as nat
    }

    /// Number of ciphertext primes.
    pub open spec fn spec_levels(&self) -> nat {
        self.spec_params().primes@.len()
    }

    /// The ciphertext moduli followed by the auxiliary moduli.
    pub open spec fn spec_all_moduli(&self) -> Seq<u64> {
        prime_moduli(self.spec_params().primes@ + self.spec_params().aux_primes@)
    }

    /// The parameters are valid and every basis is the one they define.
    pub open spec fn wf(&self) -> bool {
        let p = self.spec_params();
        &&& params_ok(p)
        &&& self.spec_rns().wf()
        &&& self.spec_rns().spec_degree() == p.poly_degree
        &&& self.spec_rns().spec_primes() == p.primes@
        &&& (p.aux_primes@.len() == 0 <==> self.spec_aux() is None)
        &&& (p.aux_primes@.len() == 0 <==> self.spec_eval() is None)
        &&& (self.spec_aux() matches Some(c) ==> {
            &&& c.wf()
            &&& c.spec_degree() == p.poly_degree
            &&& c.spec_primes() == p.aux_primes@
        })
        &&& (self.spec_eval() matches Some(c) ==> {
            &&& c.wf()
            &&& c.spec_degree() == p.poly_degree
            &&& c.spec_primes() == p.primes@ + p.aux_primes@
        })
    }

    /// All moduli are pairwise coprime (as distinct primes are), and there are
    /// few enough of them that bit lengths of their products fit in a `usize`.
    pub open spec fn coprime_basis(&self) -> bool {
        &&& pairwise_coprime(self.spec_all_moduli())
        &&& moduli_above_one(self.spec_all_moduli())
        &&& 64 * self.spec_all_moduli().len() + 128 <= usize::MAX
    }

    /// The moduli of the ciphertext primes `0..=level`.
    pub open spec fn level_moduli(&self, level: nat) -> Seq<u64> {
        prime_moduli(self.spec_params().primes@.subrange(0, level as int + 1))
    }

    /// `ct` is a ciphertext over the primes `0..=ct.level` of this context.
    pub open spec fn holds(&self, ct: RnsCiphertext) -> bool {
        &&& ct.wf()
        &&& ct.level < self.spec_levels()
        &&& ct.has_shape(self.spec_degree(), self.level_moduli(ct.level as nat))
    }

    /// `ct` is a quadratic ciphertext over the primes `0..=ct.level` of this context.
    pub open spec fn holds_quadratic(&self, ct: RnsQuadraticCiphertext) -> bool {
        &&& ct.wf()
        &&& ct.level < self.spec_levels()
        &&& ct.c0.has_shape(self.spec_degree(), self.level_moduli(ct.level as nat))
        &&& ct.c1.has_shape(self.spec_degree(), self.level_moduli(ct.level as nat))
        &&& ct.c2.has_shape(self.spec_degree(), self.level_moduli(ct.level as nat))
    }

    /// The moduli of the auxiliary primes.
    pub open spec fn aux_moduli(&self) -> Seq<u64> {
        prime_moduli(self.spec_params().aux_primes@)
    }

    /// Number of gadget digits covering the ciphertext primes `0..=level`.
    pub open spec fn digit_count(&self, level: nat) -> int {
        (bit_length(moduli_product(self.level_moduli(level))) + RNS_DECOMP_BITS - 1) / (RNS_DECOMP_BITS as int)
    }

    /// `key` switches polynomials of the ciphertext primes `0..=level`: over
    /// those primes when it has no auxiliary primes, otherwise over those
    /// primes followed by all auxiliary primes.
    pub open spec fn switches_at(&self, key: RnsKeySwitchingKey, level: nat) -> bool {
        &&& key.wf()
        &&& key.level == level
        &&& 1 <= key.decomp_bits <= 62
        &&& bit_length(moduli_product(self.level_moduli(level))) + key.decomp_bits <= usize::MAX
        &&& key.ksk@.len() >= (bit_length(moduli_product(self.level_moduli(level))) + key.decomp_bits - 1) / (
        key.decomp_bits as int)
        &&& key.aux_level_count == 0 ==> forall|i: int|
            0 <= i < key.ksk@.len() ==> (#[trigger] key.ksk@[i]).has_shape(self.spec_degree(), self.level_moduli(level))
        &&& key.aux_level_count != 0 ==> {
            &&& key.aux_level_count == self.spec_params().aux_primes@.len()
            &&& forall|i: int|
                0 <= i < key.ksk@.len() ==> (#[trigger] key.ksk@[i]).has_shape(
                    self.spec_degree(),
                    self.level_moduli(level) + self.aux_moduli(),
                )
        }
    }

    /// What a key generated for the primes `0..=level` is: exactly one
    /// ciphertext per gadget digit, with the default digit size.
    pub open spec fn generated_at(&self, key: RnsKeySwitchingKey, level: nat) -> bool {
        &&& self.switches_at(key, level)
        &&& key.decomp_bits == RNS_DECOMP_BITS
        &&& key.ksk@.len() == self.digit_count(level)
    }

    /// Facts the coprime ciphertext primes `0..=level` provide.
    pub proof fn lemma_level_facts(&self, level: nat)
        requires
            self.wf(),
            self.coprime_basis(),
            level < self.spec_levels(),
        ensures
            crt_invertible(self.level_moduli(level)),
            last_modulus_invertible(self.level_moduli(level)),
            bit_length(moduli_product(self.level_moduli(level))) + 64 <= usize::MAX,
            self.level_moduli(level).len() == level + 1,
    {
        let p = self.spec_params();
        let all = self.spec_all_moduli();
        let m = self.level_moduli(level);
        lemma_coprime_part(all, 0, level as int + 1);
        assert(m =~= all.subrange(0, level as int + 1));
        lemma_coprime_chain(m);
    }

    /// Facts the coprime evaluation basis of the primes `0..=level` and the
    /// auxiliary primes provides.
    pub proof fn lemma_eval_level_facts(&self, level: nat)
        requires
            self.wf(),
            self.coprime_basis(),
            self.spec_params().aux_primes@.len() > 0,
            level < self.spec_levels(),
        ensures
            crt_invertible(self.level_moduli(level) + self.aux_moduli()),
            crt_invertible(self.aux_moduli()),
            forall|l: int|
                0 <= l <= level ==> has_inverse(
                    moduli_product(self.aux_moduli()) % (#[trigger] self.level_moduli(level)[l] as nat),
                    self.level_moduli(level)[l] as nat,
                ),
            bit_length(moduli_product(self.level_moduli(level))) + 64 <= usize::MAX,
    {
        let p = self.spec_params();
        let all = self.spec_all_moduli();
        let count = p.primes@.len() as int;
        let m = self.level_moduli(level);
        let aux = self.aux_moduli();
        assert(all =~= prime_moduli(p.primes@) + aux);
        assert(m =~= all.subrange(0, level as int + 1));
        assert(aux =~= all.subrange(count, all.len() as int));
        lemma_coprime_prefix_then_tail(all, level as int + 1, count);
        lemma_coprime_chain(m + aux);
        lemma_coprime_part(all, count, all.len() as int);
        lemma_coprime_chain(aux);
        lemma_coprime_split(all, count);
        assert forall|l: int| 0 <= l <= level implies has_inverse(
            moduli_product(aux) % (#[trigger] m[l] as nat),
            m[l] as nat,
        ) by {
            assert(m[l] == all[l]);
        }
        lemma_coprime_part(all, 0, level as int + 1);
        lemma_coprime_chain(m);
    }
}

} // verus!
