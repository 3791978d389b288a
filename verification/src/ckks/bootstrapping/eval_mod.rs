//! The ciphertext-facing checks of EvalMod: a ciphertext at the planned level
//! and a relinearization key at every level the polynomial evaluation
//! multiplies at.

use std::collections::BTreeMap;
use vstd::prelude::*;

use crate::algorithms::paterson_stockmeyer::{paterson_stockmeyer_required_levels, ps_budget_ok, ps_required_levels, square};
use crate::math::text::decimal;
use crate::rns::{RnsCiphertext, RnsKeySwitchingKey};

use super::params::BootstrapParameters;

verus! {

/// What EvalMod checked of a ciphertext before evaluating on it.
#[derive(Clone, Debug, PartialEq, Eq)]
pub struct EvalModRuntime {
    pub ciphertext_level: usize,
    pub ciphertext_scale_bits: usize,
    pub required_relinearization_levels: Vec<usize>,
}

/// The message for a ciphertext at another level than planned.
pub open spec fn eval_mod_level_text(level: nat, expected: nat) -> Seq<char> {
    "ciphertext level "@ + decimal(level) + " did not match EvalMod plan level "@ + decimal(expected)
}

/// The message for a missing relinearization key.
pub open spec fn missing_key_text(level: nat) -> Seq<char> {
    "missing EvalMod relinearization key at level "@ + decimal(level)
}

/// The message for an EvalMod polynomial degree that is zero or even.
pub open spec fn eval_mod_degree_error(polynomial_degree: nat) -> Seq<char> {
    if polynomial_degree == 0 {
        "EvalMod polynomial_degree must be positive"@
    } else {
        "EvalMod polynomial_degree must be odd for a sine approximation"@
    }
}

/// An EvalMod polynomial degree is positive and odd: a sine approximation
/// has only odd powers.
pub fn validate_eval_mod_degree(polynomial_degree: usize) -> (r: Result<(), String>)
    ensures
        r is Ok <==> (polynomial_degree > 0 && polynomial_degree % 2 == 1),
        r matches Err(e) ==> e@ == eval_mod_degree_error(polynomial_degree as nat),
{
    if polynomial_degree == 0 {
        return Err("EvalMod polynomial_degree must be positive".to_string());
    }
    if polynomial_degree % 2 == 0 {
        return Err("EvalMod polynomial_degree must be odd for a sine approximation".to_string());
    }
    Ok(())
}

/// `format!` of a level mismatch.
#[verifier::external_body]
fn describe_level_mismatch(level: usize, expected: usize) -> (r: String)
    ensures
        r@ == eval_mod_level_text(level as nat, expected as nat),
{
    format!("ciphertext level {level} did not match EvalMod plan level {expected}")
}

/// `format!` of a missing relinearization key.
#[verifier::external_body]
fn describe_missing_key(level: usize) -> (r: String)
    ensures
        r@ == missing_key_text(level as nat),
{
    format!("missing EvalMod relinearization key at level {level}")
}

impl EvalModRuntime {
    /// Accept a ciphertext at the level of `bootstrap`, for a sine polynomial
    /// of odd degree `polynomial_degree`.
    pub fn for_plan(bootstrap: &BootstrapParameters, polynomial_degree: usize, ciphertext: &RnsCiphertext) -> (r: Result<
        Self,
        String,
    >)
        requires
            polynomial_degree < usize::MAX,
            forall|b: nat| #[trigger] square(b) < polynomial_degree + 1 ==> square(b + 1) <= usize::MAX,
            ps_budget_ok(bootstrap.ciphertext_level as nat, (polynomial_degree + 1) as nat),
        ensures
            match r {
                Ok(runtime) => {
                    &&& ciphertext.level == bootstrap.ciphertext_level
                    &&& runtime.ciphertext_level == ciphertext.level
                    &&& runtime.ciphertext_scale_bits == ciphertext.scale_bits
                    &&& runtime.required_relinearization_levels@ == ps_required_levels(
                        bootstrap.ciphertext_level as nat,
                        (polynomial_degree + 1) as nat,
                    )
                },
                Err(e) => {
                    &&& ciphertext.level != bootstrap.ciphertext_level
                    &&& e@ == eval_mod_level_text(ciphertext.level as nat, bootstrap.ciphertext_level as nat)
                },
            },
    {
        if ciphertext.level != bootstrap.ciphertext_level {
            return Err(describe_level_mismatch(ciphertext.level, bootstrap.ciphertext_level));
        }
        Ok(
            Self {
                ciphertext_level: ciphertext.level,
                ciphertext_scale_bits: ciphertext.scale_bits,
                required_relinearization_levels: paterson_stockmeyer_required_levels(
                    bootstrap.ciphertext_level,
                    polynomial_degree + 1,
                ),
            },
        )
    }

    /// Every required level has a relinearization key.
    pub fn check_relinearization_keys(&self, keys: &BTreeMap<usize, RnsKeySwitchingKey>) -> (r: Result<(), String>)
        ensures
            r is Ok <==> forall|j: int|
                0 <= j < self.required_relinearization_levels@.len() ==> keys@.contains_key(
                    #[trigger] self.required_relinearization_levels@[j],
                ),
            r matches Err(e) ==> exists|i: int|
                0 <= i < self.required_relinearization_levels@.len() && !keys@.contains_key(
                    #[trigger] self.required_relinearization_levels@[i],
                ) && (forall|j: int|
                    0 <= j < i ==> keys@.contains_key(#[trigger] self.required_relinearization_levels@[j]))
                    && e@ == missing_key_text(self.required_relinearization_levels@[i] as nat),
    {
        let levels = &self.required_relinearization_levels;
        let mut i: usize = 0;
        while i < levels.len()
            invariant
                levels@ == self.required_relinearization_levels@,
                i <= levels@.len(),
                forall|j: int| 0 <= j < i ==> keys@.contains_key(#[trigger] levels@[j]),
            decreases levels@.len() - i,
        {
            let level = levels[i];
            if keys.get(&level).is_none() {
                proof {
                    assert(!keys@.contains_key(levels@[i as int]));
                    assert(!keys@.contains_key(self.required_relinearization_levels@[i as int]));
                }
                return Err(describe_missing_key(level));
            }
            i += 1;
        }
        Ok(())
    }
}

} // verus!
