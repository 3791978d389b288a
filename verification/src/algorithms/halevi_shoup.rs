//! Halevi-Shoup dot product: the rotation schedule and key set of its fold.
//! The product itself encodes a real plaintext vector and lives with the
//! floating-point encoder.

use crate::math::arith::pow2_usize_top;
use std::collections::BTreeMap;
use vstd::prelude::*;

use super::total_sum::{fold_rotation_steps, generate_fold_rotation_keys, is_fold_schedule, is_fold_step};
use crate::rns::rotation::rotation_element;
use crate::rns::{ErrorSampler, RnsCkksContext, RnsPublicKey, RnsRotationKey, RnsSecretKey};

verus! {

/// The fold steps `1, 2, 4, ...` below `active_slots`.
pub fn halevi_shoup_dot_product_rotation_steps(active_slots: usize) -> (r: Vec<usize>)
    requires
        active_slots > 0,
        active_slots <= pow2_usize_top(),
    ensures
        is_fold_schedule(r@, active_slots as nat),
{
    fold_rotation_steps(active_slots)
}

/// Rotation keys at `level` for every fold step.
pub fn generate_halevi_shoup_dot_product_rotation_keys<S: ErrorSampler>(
    context: &RnsCkksContext,
    secret_key: &RnsSecretKey,
    public_key: &RnsPublicKey,
    level: usize,
    active_slots: usize,
    sampler: &mut S,
) -> (r: BTreeMap<usize, RnsRotationKey>)
    requires
        context.wf(),
        context.coprime_basis(),
        context.rotation_ready(),
        level < context.spec_levels(),
        secret_key.poly.has_shape(context.spec_degree(), context.moduli()),
        public_key.p0.has_shape(context.spec_degree(), context.moduli()),
        public_key.p1.has_shape(context.spec_degree(), context.moduli()),
        active_slots > 0,
        active_slots <= pow2_usize_top(),
    ensures
        forall|s: usize| #[trigger] r@.contains_key(s) <==> is_fold_step(s as nat, active_slots as nat),
        forall|s: usize|
            #[trigger] r@.contains_key(s) ==> {
                &&& r@[s].galois_element == rotation_element(context.spec_degree(), s as int)
                &&& context.generated_at(r@[s].keyswitch_key, level as nat)
                &&& r@[s].keyswitch_key.aux_level_count == 0
            },
{
    generate_fold_rotation_keys(context, secret_key, public_key, level, active_slots, sampler)
}

} // verus!
