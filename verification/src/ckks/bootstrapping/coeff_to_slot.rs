//! CoeffToSlot: the plan of the transform for the bootstrap's active slots,
//! the runtime check of the input ciphertext, and the evaluation through the
//! diagonal linear-transform engine, sparse or dense.

use vstd::prelude::*;

use crate::ckks::bootstrapping::linear_transform::{
    is_diagonal_transform_of,
    apply_diagonal_linear_transform,
    diagonal_transform_rotation_steps,
    transform_ready,
    DiagonalTransformPlaintexts,
    DiagonalTransformRotationKeys,
};
use crate::ckks::bootstrapping::params::{bootstrap_error, bootstrap_ok, BootstrapParameters};
use crate::math::text::decimal;
use crate::rns::ciphertexts::is_ciphertext_sum;
use crate::rns::{RnsCiphertext, RnsCkksContext};

verus! {

/// Static planning data for a CoeffToSlot transform.
#[derive(Clone, Debug, PartialEq, Eq)]
pub struct CoeffToSlotPlan {
    pub bootstrap: BootstrapParameters,
    pub transform_dimension: usize,
    pub rotation_steps: Vec<usize>,
}

/// Encoded diagonals of a sparse CoeffToSlot transform.
#[derive(Clone, Debug)]
pub struct CoeffToSlotPrecomputed {
    pub plan: CoeffToSlotPlan,
    pub diagonals: DiagonalTransformPlaintexts,
}

/// Encoded diagonals of the four blocks of a dense CoeffToSlot transform.
#[derive(Clone, Debug)]
pub struct DenseCoeffToSlotPrecomputed {
    pub plan: CoeffToSlotPlan,
    pub upper_from_slots: DiagonalTransformPlaintexts,
    pub upper_from_conjugates: DiagonalTransformPlaintexts,
    pub lower_from_slots: DiagonalTransformPlaintexts,
    pub lower_from_conjugates: DiagonalTransformPlaintexts,
}

/// A ciphertext accepted by a plan, with its level and scale.
#[derive(Clone, Debug, PartialEq, Eq)]
pub struct CoeffToSlotRuntime {
    pub plan: CoeffToSlotPlan,
    pub ciphertext_level: usize,
    pub ciphertext_scale_bits: usize,
}

impl CoeffToSlotPlan {
    /// The plan over the bootstrap's active slots, with the plain diagonal steps.
    pub fn new(bootstrap: BootstrapParameters) -> (r: Self)
        requires
            bootstrap.active_slots > 0,
        ensures
            r.bootstrap == bootstrap,
            r.transform_dimension == bootstrap.active_slots,
            r.rotation_steps@.len() == bootstrap.active_slots - 1,
            forall|j: int| 0 <= j < r.rotation_steps@.len() ==> #[trigger] r.rotation_steps@[j] == j + 1,
    {
        let transform_dimension = bootstrap.active_slots;
        let rotation_steps = diagonal_transform_rotation_steps(transform_dimension);
        Self { bootstrap, transform_dimension, rotation_steps }
    }

    pub fn from_ciphertext(context: &RnsCkksContext, ciphertext: &RnsCiphertext, active_slots: usize) -> (r: Result<
        Self,
        String,
    >)
        requires
            context.wf(),
        ensures
            match r {
                Ok(plan) => {
                    &&& bootstrap_ok(*context, ciphertext.level as nat, active_slots as nat)
                    &&& plan.bootstrap.ciphertext_level == ciphertext.level
                    &&& plan.transform_dimension == active_slots
                },
                Err(e) => {
                    &&& !bootstrap_ok(*context, ciphertext.level as nat, active_slots as nat)
                    &&& e@ == bootstrap_error(*context, ciphertext.level as nat, active_slots as nat)
                },
            },
    {
        match BootstrapParameters::from_ciphertext(context, ciphertext, active_slots) {
            Ok(bootstrap) => Ok(Self::new(bootstrap)),
            Err(e) => Err(e),
        }
    }

    /// A copy of the plan.
    pub fn duplicate(&self) -> (r: Self)
        ensures
            r.bootstrap == self.bootstrap,
            r.transform_dimension == self.transform_dimension,
            r.rotation_steps@ == self.rotation_steps@,
    {
        let mut steps: Vec<usize> = Vec::with_capacity(self.rotation_steps.len());
        let mut i: usize = 0;
        while i < self.rotation_steps.len()
            invariant
                i <= self.rotation_steps@.len(),
                steps@ == self.rotation_steps@.subrange(0, i as int),
            decreases self.rotation_steps@.len() - i,
        {
            steps.push(self.rotation_steps[i]);
            i += 1;
            proof {
                assert(steps@ =~= self.rotation_steps@.subrange(0, i as int));
            }
        }
        proof {
            assert(steps@ =~= self.rotation_steps@);
        }
        Self { bootstrap: self.bootstrap, transform_dimension: self.transform_dimension, rotation_steps: steps }
    }
}

/// The message for a ciphertext level that does not match the plan.
pub open spec fn plan_level_text(level: nat, expected: nat) -> Seq<char> {
    "ciphertext level"@ + " "@ + decimal(level) + " did not match CoeffToSlot plan level "@ + decimal(expected)
}

/// The message for a conjugated ciphertext whose `what` (level or scale)
/// does not match the input's.
pub open spec fn conjugate_text(what: Seq<char>, found: nat, expected: nat) -> Seq<char> {
    "conjugated ciphertext "@ + what + " "@ + decimal(found) + " did not match CoeffToSlot input "@ + what + " "@
        + decimal(expected)
}

/// The message for a transform matrix of the wrong dimension.
pub open spec fn dimension_text(found: nat, expected: nat) -> Seq<char> {
    "CoeffToSlot transform matrix dimension "@ + decimal(found) + " did not match plan dimension "@ + decimal(expected)
}

/// The message for a transform row of the wrong length.
pub open spec fn row_text(row_index: nat, found: nat, expected: nat) -> Seq<char> {
    "CoeffToSlot transform row "@ + decimal(row_index) + " had length "@ + decimal(found) + ", expected "@ + decimal(
        expected,
    )
}

/// `format!` of a level mismatch: `Display` of a `usize` is its decimal digits.
#[verifier::external_body]
fn describe_level_mismatch(what: &str, level: usize, expected: usize) -> (r: String)
    ensures
        r@ == what@ + " "@ + decimal(level as nat) + " did not match CoeffToSlot plan level "@ + decimal(
            expected as nat,
        ),
{
    format!("{what} {level} did not match CoeffToSlot plan level {expected}")
}

/// `format!` of a conjugate mismatch, with `what` written twice.
#[verifier::external_body]
fn describe_conjugate_mismatch(what: &str, found: usize, expected: usize) -> (r: String)
    ensures
        r@ == conjugate_text(what@, found as nat, expected as nat),
{
    format!("conjugated ciphertext {what} {found} did not match CoeffToSlot input {what} {expected}")
}

impl CoeffToSlotRuntime {
    /// Accept a ciphertext at the plan's level.
    pub fn new(plan: CoeffToSlotPlan, ciphertext: &RnsCiphertext) -> (r: Result<Self, String>)
        ensures
            match r {
                Ok(runtime) => {
                    &&& ciphertext.level == plan.bootstrap.ciphertext_level
                    &&& runtime.plan == plan
                    &&& runtime.ciphertext_level == ciphertext.level
                    &&& runtime.ciphertext_scale_bits == ciphertext.scale_bits
                },
                Err(e) => {
                    &&& ciphertext.level != plan.bootstrap.ciphertext_level
                    &&& e@ == plan_level_text(ciphertext.level as nat, plan.bootstrap.ciphertext_level as nat)
                },
            },
    {
        if ciphertext.level != plan.bootstrap.ciphertext_level {
            return Err(describe_level_mismatch("ciphertext level", ciphertext.level, plan.bootstrap.ciphertext_level));
        }
        Ok(Self { ciphertext_level: ciphertext.level, ciphertext_scale_bits: ciphertext.scale_bits, plan })
    }
}

/// Apply a sparse CoeffToSlot transform to a ciphertext at the plan's level.
pub fn coeff_to_slot(
    context: &RnsCkksContext,
    ciphertext: &RnsCiphertext,
    precomputed: &CoeffToSlotPrecomputed,
    rotation_keys: &DiagonalTransformRotationKeys,
) -> (r: Result<RnsCiphertext, String>)
    requires
        ciphertext.level == precomputed.plan.bootstrap.ciphertext_level ==> transform_ready(
            *context,
            *ciphertext,
            precomputed.diagonals,
            *rotation_keys,
        ),
    ensures
        match r {
            Ok(c) => {
                &&& ciphertext.level == precomputed.plan.bootstrap.ciphertext_level
                &&& context.holds(c)
                &&& c.level == ciphertext.level - 1
                &&& is_diagonal_transform_of(
                    c,
                    *ciphertext,
                    precomputed.diagonals,
                    *rotation_keys,
                    context.spec_degree(),
                    context.level_moduli(ciphertext.level as nat),
                )
            },
            Err(e) => {
                &&& ciphertext.level != precomputed.plan.bootstrap.ciphertext_level
                &&& e@ == plan_level_text(ciphertext.level as nat, precomputed.plan.bootstrap.ciphertext_level as nat)
            },
        },
{
    match CoeffToSlotRuntime::new(precomputed.plan.duplicate(), ciphertext) {
        Ok(_) => {},
        Err(e) => {
            return Err(e);
        },
    }
    Ok(apply_diagonal_linear_transform(context, ciphertext, &precomputed.diagonals, rotation_keys))
}

/// `r` is one block row of a dense transform: the transform of `ct` by
/// `from_slots` plus the transform of `conjugated` by `from_conjugates`.
pub open spec fn is_dense_branch_of(
    r: RnsCiphertext,
    ct: RnsCiphertext,
    conjugated: RnsCiphertext,
    from_slots: DiagonalTransformPlaintexts,
    from_conjugates: DiagonalTransformPlaintexts,
    keys: DiagonalTransformRotationKeys,
    degree: nat,
    moduli: Seq<u64>,
) -> bool {
    exists|direct: RnsCiphertext, conjugate: RnsCiphertext|
        #![trigger is_diagonal_transform_of(direct, ct, from_slots, keys, degree, moduli), is_diagonal_transform_of(conjugate, conjugated, from_conjugates, keys, degree, moduli)]
        {
            &&& is_diagonal_transform_of(direct, ct, from_slots, keys, degree, moduli)
            &&& is_diagonal_transform_of(conjugate, conjugated, from_conjugates, keys, degree, moduli)
            &&& is_ciphertext_sum(r, direct, conjugate)
        }
}

/// One block row of a dense transform: the slots part plus the conjugates part.
fn apply_dense_branch(
    context: &RnsCkksContext,
    ciphertext: &RnsCiphertext,
    conjugated_ciphertext: &RnsCiphertext,
    from_slots: &DiagonalTransformPlaintexts,
    from_conjugates: &DiagonalTransformPlaintexts,
    rotation_keys: &DiagonalTransformRotationKeys,
) -> (r: RnsCiphertext)
    requires
        transform_ready(*context, *ciphertext, *from_slots, *rotation_keys),
        transform_ready(*context, *conjugated_ciphertext, *from_conjugates, *rotation_keys),
        conjugated_ciphertext.level == ciphertext.level,
        conjugated_ciphertext.scale_bits == ciphertext.scale_bits,
    ensures
        context.holds(r),
        r.level == ciphertext.level - 1,
        is_dense_branch_of(r, *ciphertext, *conjugated_ciphertext, *from_slots, *from_conjugates, *rotation_keys, context.spec_degree(), context.level_moduli(ciphertext.level as nat)),
{
    let direct = apply_diagonal_linear_transform(context, ciphertext, from_slots, rotation_keys);
    let conjugate = apply_diagonal_linear_transform(context, conjugated_ciphertext, from_conjugates, rotation_keys);
    proof {
        let m = context.level_moduli(direct.level as nat);
        assert(direct.c0.spec_moduli() =~= m);
        assert(conjugate.c0.spec_moduli() =~= m);
        assert forall|l: int| 0 <= l < direct.c0.spec_levels() implies (#[trigger] direct.c0.spec_residues()[l]).compatible(
            &conjugate.c0.spec_residues()[l],
        ) by {
            assert(direct.c0.spec_residues()[l].spec_modulus() == m[l]);
            assert(conjugate.c0.spec_residues()[l].spec_modulus() == m[l]);
        }
    }
    let r = direct.add(&conjugate);
    proof {
        assert(is_ciphertext_sum(r, direct, conjugate));
        let m = context.level_moduli(direct.level as nat);
        crate::rns::context::ops::lemma_sum_shape(r.c0, direct.c0, context.spec_degree(), m);
        crate::rns::context::ops::lemma_sum_shape(r.c1, direct.c1, context.spec_degree(), m);
    }
    r
}

/// Apply a dense CoeffToSlot transform to a ciphertext and its conjugate:
/// the upper and lower halves of the coefficients.
pub fn coeff_to_slot_dense(
    context: &RnsCkksContext,
    ciphertext: &RnsCiphertext,
    conjugated_ciphertext: &RnsCiphertext,
    precomputed: &DenseCoeffToSlotPrecomputed,
    rotation_keys: &DiagonalTransformRotationKeys,
) -> (r: Result<(RnsCiphertext, RnsCiphertext), String>)
    requires
        ciphertext.level == precomputed.plan.bootstrap.ciphertext_level && conjugated_ciphertext.level
            == ciphertext.level && conjugated_ciphertext.scale_bits == ciphertext.scale_bits ==> {
            &&& transform_ready(*context, *ciphertext, precomputed.upper_from_slots, *rotation_keys)
            &&& transform_ready(*context, *conjugated_ciphertext, precomputed.upper_from_conjugates, *rotation_keys)
            &&& transform_ready(*context, *ciphertext, precomputed.lower_from_slots, *rotation_keys)
            &&& transform_ready(*context, *conjugated_ciphertext, precomputed.lower_from_conjugates, *rotation_keys)
        },
    ensures
        match r {
            Ok((upper, lower)) => {
                &&& ciphertext.level == precomputed.plan.bootstrap.ciphertext_level
                &&& conjugated_ciphertext.level == ciphertext.level
                &&& conjugated_ciphertext.scale_bits == ciphertext.scale_bits
                &&& context.holds(upper)
                &&& context.holds(lower)
                &&& upper.level == ciphertext.level - 1
                &&& lower.level == ciphertext.level - 1
                &&& is_dense_branch_of(
                    upper,
                    *ciphertext,
                    *conjugated_ciphertext,
                    precomputed.upper_from_slots,
                    precomputed.upper_from_conjugates,
                    *rotation_keys,
                    context.spec_degree(),
                    context.level_moduli(ciphertext.level as nat),
                )
                &&& is_dense_branch_of(
                    lower,
                    *ciphertext,
                    *conjugated_ciphertext,
                    precomputed.lower_from_slots,
                    precomputed.lower_from_conjugates,
                    *rotation_keys,
                    context.spec_degree(),
                    context.level_moduli(ciphertext.level as nat),
                )
            },
            Err(e) => {
                &&& !(ciphertext.level == precomputed.plan.bootstrap.ciphertext_level && conjugated_ciphertext.level
                    == ciphertext.level && conjugated_ciphertext.scale_bits == ciphertext.scale_bits)
                &&& e@ == if ciphertext.level != precomputed.plan.bootstrap.ciphertext_level {
                    plan_level_text(ciphertext.level as nat, precomputed.plan.bootstrap.ciphertext_level as nat)
                } else if conjugated_ciphertext.level != ciphertext.level {
                    conjugate_text("level"@, conjugated_ciphertext.level as nat, ciphertext.level as nat)
                } else {
                    conjugate_text("scale"@, conjugated_ciphertext.scale_bits as nat, ciphertext.scale_bits as nat)
                }
            },
        },
{
    match CoeffToSlotRuntime::new(precomputed.plan.duplicate(), ciphertext) {
        Ok(_) => {},
        Err(e) => {
            return Err(e);
        },
    }
    if conjugated_ciphertext.level != ciphertext.level {
        return Err(describe_conjugate_mismatch("level", conjugated_ciphertext.level, ciphertext.level));
    }
    if conjugated_ciphertext.scale_bits != ciphertext.scale_bits {
        return Err(describe_conjugate_mismatch("scale", conjugated_ciphertext.scale_bits, ciphertext.scale_bits));
    }
    let upper = apply_dense_branch(
        context,
        ciphertext,
        conjugated_ciphertext,
        &precomputed.upper_from_slots,
        &precomputed.upper_from_conjugates,
        rotation_keys,
    );
    let lower = apply_dense_branch(
        context,
        ciphertext,
        conjugated_ciphertext,
        &precomputed.lower_from_slots,
        &precomputed.lower_from_conjugates,
        rotation_keys,
    );
    Ok((upper, lower))
}

/// `format!` of a dimension mismatch.
#[verifier::external_body]
fn describe_dimension(found: usize, expected: usize) -> (r: String)
    ensures
        r@ == dimension_text(found as nat, expected as nat),
{
    format!("CoeffToSlot transform matrix dimension {found} did not match plan dimension {expected}")
}

/// `format!` of a row-length mismatch.
#[verifier::external_body]
fn describe_row(row_index: usize, found: usize, expected: usize) -> (r: String)
    ensures
        r@ == row_text(row_index as nat, found as nat, expected as nat),
{
    format!("CoeffToSlot transform row {row_index} had length {found}, expected {expected}")
}

/// A transform matrix is square of the expected dimension.
pub fn validate_transform_matrix<T>(matrix: &[Vec<T>], expected_dimension: usize) -> (r: Result<(), String>)
    ensures
        r is Ok <==> {
            &&& matrix@.len() > 0
            &&& matrix@.len() == expected_dimension
            &&& forall|row: int| 0 <= row < matrix@.len() ==> (#[trigger] matrix@[row])@.len() == expected_dimension
        },
        r matches Err(e) ==> if matrix@.len() == 0 {
            e@ == "CoeffToSlot transform matrix cannot be empty"@
        } else if matrix@.len() != expected_dimension {
            e@ == dimension_text(matrix@.len(), expected_dimension as nat)
        } else {
            exists|bad: int|
                0 <= bad < matrix@.len() && (#[trigger] matrix@[bad])@.len() != expected_dimension && (forall|row: int|
                    0 <= row < bad ==> (#[trigger] matrix@[row])@.len() == expected_dimension) && e@ == row_text(
                    bad as nat,
                    matrix@[bad]@.len(),
                    expected_dimension as nat,
                )
        },
{
    if matrix.len() == 0 {
        return Err("CoeffToSlot transform matrix cannot be empty".to_string());
    }
    if matrix.len() != expected_dimension {
        return Err(describe_dimension(matrix.len(), expected_dimension));
    }
    let mut row_index: usize = 0;
    while row_index < matrix.len()
        invariant
            row_index <= matrix@.len(),
            matrix@.len() > 0,
            matrix@.len() == expected_dimension,
            forall|row: int| 0 <= row < row_index ==> (#[trigger] matrix@[row])@.len() == expected_dimension,
        decreases matrix@.len() - row_index,
    {
        if matrix[row_index].len() != expected_dimension {
            let e = describe_row(row_index, matrix[row_index].len(), expected_dimension);
            proof {
                let bad = row_index as int;
                assert(0 <= bad < matrix@.len() && (#[trigger] matrix@[bad])@.len() != expected_dimension && (forall|
                    row: int,
                | 0 <= row < bad ==> (#[trigger] matrix@[row])@.len() == expected_dimension) && e@ == row_text(
                    bad as nat,
                    matrix@[bad]@.len(),
                    expected_dimension as nat,
                ));
            }
            return Err(e);
        }
        row_index += 1;
    }
    Ok(())
}

} // verus!
