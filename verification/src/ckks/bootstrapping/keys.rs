//! The key sets of the bootstrapping stages.

use std::collections::BTreeMap;
use vstd::prelude::*;

use crate::algorithms::paterson_stockmeyer::{
    generate_paterson_stockmeyer_relinearization_keys,
    ps_budget_ok,
    ps_required_levels,
    square,
};
use crate::rns::rotation::rotation_element;
use crate::rns::{ErrorSampler, RnsCkksContext, RnsKeyPair, RnsKeySwitchingKey, RnsPublicKey, RnsRotationKey, RnsSecretKey};

use super::linear_transform::generate_diagonal_transform_rotation_keys;

verus! {

/// Rotation keys of the two linear transforms, relinearization keys of the
/// modular reduction, and an optional conjugation key.
#[derive(Clone, Debug)]
pub struct BootstrapKeySet {
    pub coeff_to_slot_rotation_keys: BTreeMap<usize, RnsRotationKey>,
    pub slot_to_coeff_rotation_keys: BTreeMap<usize, RnsRotationKey>,
    pub eval_mod_relinearization_keys: BTreeMap<usize, RnsKeySwitchingKey>,
    pub conjugation_key: Option<RnsRotationKey>,
}

/// The keys of `keys` are the steps `1..dimension`, each a rotation key at `level`.
pub open spec fn transform_keys_for(
    context: RnsCkksContext,
    keys: Map<usize, RnsRotationKey>,
    dimension: nat,
    level: nat,
) -> bool {
    &&& forall|s: usize| #[trigger] keys.contains_key(s) <==> 1 <= s < dimension
    &&& forall|s: usize|
        #[trigger] keys.contains_key(s) ==> {
            &&& keys[s].galois_element == rotation_element(context.spec_degree(), s as int)
            &&& context.generated_at(keys[s].keyswitch_key, level)
            &&& keys[s].keyswitch_key.aux_level_count == 0
        }
}

/// A secret and a public key of the context's full chain.
pub open spec fn keys_of(context: RnsCkksContext, secret_key: RnsSecretKey, public_key: RnsPublicKey) -> bool {
    &&& secret_key.poly.has_shape(context.spec_degree(), context.moduli())
    &&& public_key.p0.has_shape(context.spec_degree(), context.moduli())
    &&& public_key.p1.has_shape(context.spec_degree(), context.moduli())
}

/// A key pair of the context's full chain.
pub open spec fn key_pair_of(context: RnsCkksContext, key_pair: RnsKeyPair) -> bool {
    keys_of(context, key_pair.secret_key, key_pair.public_key)
}

/// The preconditions of generating rotation keys at `level` for `dimension`
/// slots from a secret and a public key.
pub open spec fn rotation_keys_ready_for(
    context: RnsCkksContext,
    secret_key: RnsSecretKey,
    public_key: RnsPublicKey,
    level: nat,
    dimension: nat,
) -> bool {
    &&& context.wf()
    &&& context.coprime_basis()
    &&& context.rotation_ready()
    &&& level < context.spec_levels()
    &&& keys_of(context, secret_key, public_key)
    &&& dimension > 0
    &&& dimension <= isize::MAX
}

/// The preconditions of generating rotation keys at `level` for `dimension` slots.
pub open spec fn rotation_keys_ready(context: RnsCkksContext, key_pair: RnsKeyPair, level: nat, dimension: nat) -> bool {
    rotation_keys_ready_for(context, key_pair.secret_key, key_pair.public_key, level, dimension)
}

impl BootstrapKeySet {
    /// No keys at all.
    pub fn empty() -> (r: Self)
        ensures
            r.coeff_to_slot_rotation_keys@ == Map::<usize, RnsRotationKey>::empty(),
            r.slot_to_coeff_rotation_keys@ == Map::<usize, RnsRotationKey>::empty(),
            r.eval_mod_relinearization_keys@ == Map::<usize, RnsKeySwitchingKey>::empty(),
            r.conjugation_key is None,
    {
        Self {
            coeff_to_slot_rotation_keys: BTreeMap::new(),
            slot_to_coeff_rotation_keys: BTreeMap::new(),
            eval_mod_relinearization_keys: BTreeMap::new(),
            conjugation_key: None,
        }
    }

    /// Relinearization keys for every level the modular reduction multiplies at.
    pub fn for_eval_mod<S: ErrorSampler>(
        context: &RnsCkksContext,
        key_pair: &RnsKeyPair,
        ciphertext_level: usize,
        polynomial_term_count: usize,
        sampler: &mut S,
    ) -> (r: Self)
        requires
            context.wf(),
            context.coprime_basis(),
            ciphertext_level < context.spec_levels(),
            key_pair_of(*context, *key_pair),
            polynomial_term_count > 0,
            forall|b: nat| #[trigger] square(b) < polynomial_term_count ==> square(b + 1) <= usize::MAX,
            ps_budget_ok(ciphertext_level as nat, polynomial_term_count as nat),
        ensures
            forall|l: usize|
                #[trigger] r.eval_mod_relinearization_keys@.contains_key(l) <==> ps_required_levels(
                    ciphertext_level as nat,
                    polynomial_term_count as nat,
                ).contains(l),
            forall|l: usize|
                #[trigger] r.eval_mod_relinearization_keys@.contains_key(l) ==> context.generated_at(
                    r.eval_mod_relinearization_keys@[l],
                    l as nat,
                ),
            r.coeff_to_slot_rotation_keys@ == Map::<usize, RnsRotationKey>::empty(),
            r.slot_to_coeff_rotation_keys@ == Map::<usize, RnsRotationKey>::empty(),
            r.conjugation_key is None,
    {
        let eval_mod_relinearization_keys = generate_paterson_stockmeyer_relinearization_keys(
            context,
            &key_pair.secret_key,
            &key_pair.public_key,
            ciphertext_level,
            polynomial_term_count,
            sampler,
        );
        Self {
            coeff_to_slot_rotation_keys: BTreeMap::new(),
            slot_to_coeff_rotation_keys: BTreeMap::new(),
            eval_mod_relinearization_keys,
            conjugation_key: None,
        }
    }

    /// Rotation keys for a CoeffToSlot transform of `active_slots` slots.
    pub fn for_coeff_to_slot<S: ErrorSampler>(
        context: &RnsCkksContext,
        key_pair: &RnsKeyPair,
        ciphertext_level: usize,
        active_slots: usize,
        sampler: &mut S,
    ) -> (r: Self)
        requires
            rotation_keys_ready(*context, *key_pair, ciphertext_level as nat, active_slots as nat),
        ensures
            transform_keys_for(*context, r.coeff_to_slot_rotation_keys@, active_slots as nat, ciphertext_level as nat),
            r.slot_to_coeff_rotation_keys@ == Map::<usize, RnsRotationKey>::empty(),
            r.eval_mod_relinearization_keys@ == Map::<usize, RnsKeySwitchingKey>::empty(),
            r.conjugation_key is None,
    {
        let rotation_keys = generate_diagonal_transform_rotation_keys(
            context,
            &key_pair.secret_key,
            &key_pair.public_key,
            ciphertext_level,
            active_slots,
            sampler,
        );
        Self {
            coeff_to_slot_rotation_keys: rotation_keys.by_step,
            slot_to_coeff_rotation_keys: BTreeMap::new(),
            eval_mod_relinearization_keys: BTreeMap::new(),
            conjugation_key: None,
        }
    }

    /// Rotation keys for a SlotToCoeff transform of `active_slots` slots.
    pub fn for_slot_to_coeff<S: ErrorSampler>(
        context: &RnsCkksContext,
        key_pair: &RnsKeyPair,
        ciphertext_level: usize,
        active_slots: usize,
        sampler: &mut S,
    ) -> (r: Self)
        requires
            rotation_keys_ready(*context, *key_pair, ciphertext_level as nat, active_slots as nat),
        ensures
            transform_keys_for(*context, r.slot_to_coeff_rotation_keys@, active_slots as nat, ciphertext_level as nat),
            r.coeff_to_slot_rotation_keys@ == Map::<usize, RnsRotationKey>::empty(),
            r.eval_mod_relinearization_keys@ == Map::<usize, RnsKeySwitchingKey>::empty(),
            r.conjugation_key is None,
    {
        let rotation_keys = generate_diagonal_transform_rotation_keys(
            context,
            &key_pair.secret_key,
            &key_pair.public_key,
            ciphertext_level,
            active_slots,
            sampler,
        );
        Self {
            coeff_to_slot_rotation_keys: BTreeMap::new(),
            slot_to_coeff_rotation_keys: rotation_keys.by_step,
            eval_mod_relinearization_keys: BTreeMap::new(),
            conjugation_key: None,
        }
    }

    /// Rotation keys for a dense CoeffToSlot transform over all slots, and a
    /// conjugation key.
    pub fn for_dense_coeff_to_slot<S: ErrorSampler>(context: &RnsCkksContext, key_pair: &RnsKeyPair, ciphertext_level: usize, sampler: &mut S) -> (r:
        Self)
        requires
            rotation_keys_ready(*context, *key_pair, ciphertext_level as nat, context.spec_degree() / 2),
        ensures
            transform_keys_for(
                *context,
                r.coeff_to_slot_rotation_keys@,
                context.spec_degree() / 2,
                ciphertext_level as nat,
            ),
            r.slot_to_coeff_rotation_keys@ == Map::<usize, RnsRotationKey>::empty(),
            r.eval_mod_relinearization_keys@ == Map::<usize, RnsKeySwitchingKey>::empty(),
            r.conjugation_key matches Some(key) && key.galois_element == 2 * context.spec_degree() - 1
                && context.generated_at(key.keyswitch_key, ciphertext_level as nat),
    {
        let rotation_keys = generate_diagonal_transform_rotation_keys(
            context,
            &key_pair.secret_key,
            &key_pair.public_key,
            ciphertext_level,
            context.num_slots(),
            sampler,
        );
        let conjugation_key = context.generate_conjugation_key_at_level(
            &key_pair.secret_key,
            &key_pair.public_key,
            ciphertext_level,
            sampler,
        );
        Self {
            coeff_to_slot_rotation_keys: rotation_keys.by_step,
            slot_to_coeff_rotation_keys: BTreeMap::new(),
            eval_mod_relinearization_keys: BTreeMap::new(),
            conjugation_key: Some(conjugation_key),
        }
    }

    /// Rotation keys for a dense SlotToCoeff transform over all slots.
    pub fn for_dense_slot_to_coeff<S: ErrorSampler>(context: &RnsCkksContext, key_pair: &RnsKeyPair, ciphertext_level: usize, sampler: &mut S) -> (r:
        Self)
        requires
            rotation_keys_ready(*context, *key_pair, ciphertext_level as nat, context.spec_degree() / 2),
        ensures
            transform_keys_for(
                *context,
                r.slot_to_coeff_rotation_keys@,
                context.spec_degree() / 2,
                ciphertext_level as nat,
            ),
            r.coeff_to_slot_rotation_keys@ == Map::<usize, RnsRotationKey>::empty(),
            r.eval_mod_relinearization_keys@ == Map::<usize, RnsKeySwitchingKey>::empty(),
            r.conjugation_key is None,
    {
        let rotation_keys = generate_diagonal_transform_rotation_keys(
            context,
            &key_pair.secret_key,
            &key_pair.public_key,
            ciphertext_level,
            context.num_slots(),
            sampler,
        );
        Self {
            coeff_to_slot_rotation_keys: BTreeMap::new(),
            slot_to_coeff_rotation_keys: rotation_keys.by_step,
            eval_mod_relinearization_keys: BTreeMap::new(),
            conjugation_key: None,
        }
    }
}

} // verus!
