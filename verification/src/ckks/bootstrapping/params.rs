//! The parameters of a bootstrap: the levels it works at and its slot regime.

use crate::math::arith::is_pow2;
use crate::math::text::decimal;
use vstd::prelude::*;

use crate::rns::{RnsCiphertext, RnsCkksContext};

verus! {

#[derive(Clone, Copy, Debug, PartialEq, Eq, Structural)]
pub struct BootstrapParameters {
    pub ciphertext_level: usize,
    pub q_level_count: usize,
    pub eval_level_count: usize,
    pub aux_level_count: usize,
    pub slot_count: usize,
    pub active_slots: usize,
}

/// The conditions under which bootstrap parameters exist: an auxiliary basis,
/// a level of the chain, and a power-of-two number of active slots that the
/// context's slots can hold.
pub open spec fn bootstrap_ok(context: RnsCkksContext, ciphertext_level: nat, active_slots: nat) -> bool {
    &&& context.spec_params().aux_primes@.len() > 0
    &&& ciphertext_level < context.spec_levels()
    &&& active_slots > 0
    &&& is_pow2(active_slots)
    &&& active_slots <= context.spec_degree() / 2
}

/// The message of an active-slot count the context cannot take, by the first
/// failing check.
pub open spec fn active_slots_error(slot_count: nat, active_slots: nat) -> Seq<char> {
    if active_slots == 0 {
        "active_slots must be positive"@
    } else if !is_pow2(active_slots) {
        "active_slots must be a power of two"@
    } else {
        "active_slots cannot exceed the CKKS slot count "@ + decimal(slot_count) + "; got "@ + decimal(active_slots)
    }
}

/// The message of bootstrap parameters that do not exist, by the first
/// failing check.
pub open spec fn bootstrap_error(context: RnsCkksContext, ciphertext_level: nat, active_slots: nat) -> Seq<char> {
    if context.spec_params().aux_primes@.len() == 0 {
        "bootstrapping requires an auxiliary evaluation basis"@
    } else if ciphertext_level >= context.spec_levels() {
        "ciphertext level must be in 0.."@ + decimal(context.spec_levels()) + ", got "@ + decimal(ciphertext_level)
    } else {
        active_slots_error(context.spec_degree() / 2, active_slots)
    }
}

/// `format!` of a ciphertext level outside the chain.
#[verifier::external_body]
fn describe_ciphertext_level(levels: usize, level: usize) -> (r: String)
    ensures
        r@ == "ciphertext level must be in 0.."@ + decimal(levels as nat) + ", got "@ + decimal(level as nat),
{
    format!("ciphertext level must be in 0..{levels}, got {level}")
}

/// `format!` of too many active slots.
#[verifier::external_body]
fn describe_active_slots(slot_count: usize, active_slots: usize) -> (r: String)
    ensures
        r@ == "active_slots cannot exceed the CKKS slot count "@ + decimal(slot_count as nat) + "; got "@ + decimal(
            active_slots as nat,
        ),
{
    format!("active_slots cannot exceed the CKKS slot count {slot_count}; got {active_slots}")
}

/// A power-of-two number of active slots that the context's slots can hold.
pub fn validate_active_slots(context: &RnsCkksContext, active_slots: usize) -> (r: Result<(), String>)
    requires
        context.wf(),
    ensures
        r is Ok <==> (active_slots > 0 && is_pow2(active_slots as nat) && active_slots <= context.spec_degree() / 2),
        r matches Err(e) ==> e@ == active_slots_error(context.spec_degree() / 2, active_slots as nat),
{
    if active_slots == 0 {
        return Err("active_slots must be positive".to_string());
    }
    if !active_slots.is_power_of_two() {
        return Err("active_slots must be a power of two".to_string());
    }
    if active_slots > context.num_slots() {
        return Err(describe_active_slots(context.num_slots(), active_slots));
    }
    Ok(())
}

impl BootstrapParameters {
    pub fn new(context: &RnsCkksContext, ciphertext_level: usize, active_slots: usize) -> (r: Result<Self, String>)
        requires
            context.wf(),
        ensures
            match r {
                Ok(p) => {
                    &&& bootstrap_ok(*context, ciphertext_level as nat, active_slots as nat)
                    &&& p.ciphertext_level == ciphertext_level
                    &&& p.q_level_count == ciphertext_level + 1
                    &&& p.eval_level_count == ciphertext_level + 1 + context.spec_params().aux_primes@.len()
                    &&& p.aux_level_count == context.spec_params().aux_primes@.len()
                    &&& p.slot_count == context.spec_degree() / 2
                    &&& p.active_slots == active_slots
                },
                Err(e) => {
                    &&& !bootstrap_ok(*context, ciphertext_level as nat, active_slots as nat)
                    &&& e@ == bootstrap_error(*context, ciphertext_level as nat, active_slots as nat)
                },
            },
    {
        if !context.has_aux_basis() {
            return Err("bootstrapping requires an auxiliary evaluation basis".to_string());
        }
        if ciphertext_level >= context.levels() {
            return Err(describe_ciphertext_level(context.levels(), ciphertext_level));
        }
        if active_slots == 0 {
            return Err("active_slots must be positive".to_string());
        }
        if !active_slots.is_power_of_two() {
            return Err("active_slots must be a power of two".to_string());
        }
        if active_slots > context.num_slots() {
            return Err(describe_active_slots(context.num_slots(), active_slots));
        }
        let q_level_count = ciphertext_level + 1;
        let eval_level_count = match context.eval_key_level_context(ciphertext_level) {
            Ok(c) => c.levels(),
            Err(e) => {
                return Err(e);
            },
        };
        let aux_level_count = eval_level_count - q_level_count;
        Ok(Self {
            ciphertext_level,
            q_level_count,
            eval_level_count,
            aux_level_count,
            slot_count: context.num_slots(),
            active_slots,
        })
    }

    pub fn from_ciphertext(context: &RnsCkksContext, ciphertext: &RnsCiphertext, active_slots: usize) -> (r: Result<
        Self,
        String,
    >)
        requires
            context.wf(),
        ensures
            match r {
                Ok(p) => {
                    &&& bootstrap_ok(*context, ciphertext.level as nat, active_slots as nat)
                    &&& p.ciphertext_level == ciphertext.level
                    &&& p.q_level_count == ciphertext.level + 1
                    &&& p.eval_level_count == ciphertext.level + 1 + context.spec_params().aux_primes@.len()
                    &&& p.aux_level_count == context.spec_params().aux_primes@.len()
                    &&& p.slot_count == context.spec_degree() / 2
                    &&& p.active_slots == active_slots
                },
                Err(e) => {
                    &&& !bootstrap_ok(*context, ciphertext.level as nat, active_slots as nat)
                    &&& e@ == bootstrap_error(*context, ciphertext.level as nat, active_slots as nat)
                },
            },
    {
        Self::new(context, ciphertext.level, active_slots)
    }
}

} // verus!
