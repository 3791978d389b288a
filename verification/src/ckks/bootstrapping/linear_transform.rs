//! Diagonal linear transforms of packed slots by the baby-step giant-step
//! method: rotation schedules, their keys, the index layout of the packed
//! diagonals, and the evaluation on a ciphertext.

use crate::math::arith::is_pow2;
use std::collections::BTreeMap;
use vstd::arithmetic::div_mod::*;
use vstd::arithmetic::mul::*;
use vstd::prelude::*;

use crate::algorithms::paterson_stockmeyer::{is_ceil_sqrt, paterson_stockmeyer_block_size, ps_block_size, square};
use crate::math::bignum::bit_length;
use crate::rns::ciphertexts::{is_ciphertext_sum, is_plain_product, same_ciphertext};
use crate::rns::context::rotation::is_rotation_of;
use crate::rns::ops::{is_rescaled, rescaled_scale_bits};
use crate::rns::rotation::rotation_element;
use crate::rns::{ErrorSampler, RnsCiphertext, RnsCkksContext, RnsPolynomial, RnsPublicKey, RnsRotationKey, RnsSecretKey};

verus! {

/// Rotation keys of a diagonal transform, by rotation step.
#[derive(Clone, Debug)]
pub struct DiagonalTransformRotationKeys {
    pub by_step: BTreeMap<usize, RnsRotationKey>,
}

/// The encoded diagonals of a transform: all of them, and the same grouped by
/// giant step for the baby-step giant-step evaluation.
#[derive(Clone, Debug)]
pub struct DiagonalTransformPlaintexts {
    pub diagonals: Vec<RnsPolynomial>,
    pub dimension: usize,
    baby_step: usize,
    giant_step_diagonals: Vec<Vec<Option<RnsPolynomial>>>,
    level: usize,
    scale_bits: usize,
}

/// `ceil(dimension / baby_step)` giant steps.
pub open spec fn giant_step_count(dimension: nat, baby_step: nat) -> nat {
    ((dimension + baby_step - 1) as nat / baby_step) as nat
}

/// The rotation steps of the evaluation: the baby steps `1..min(b, dimension)`
/// followed by the giant steps `b, 2b, ...` below `dimension`, for
/// `b = ceil(sqrt(dimension))`.
pub open spec fn bsgs_schedule(dimension: nat) -> Seq<usize> {
    let b = ps_block_size(dimension);
    let babies = (if b < dimension { b } else { dimension }) - 1;
    let giants = giant_step_count(dimension, b) - 1;
    Seq::new(babies as nat, |j: int| (j + 1) as usize) + Seq::new(giants as nat, |k: int| ((k + 1) * b) as usize)
}

impl DiagonalTransformPlaintexts {
    pub closed spec fn spec_diagonals(&self) -> Seq<RnsPolynomial> {
        self.diagonals@
    }

    pub closed spec fn spec_dimension(&self) -> nat {
        self.dimension as nat
    }

    pub closed spec fn spec_baby_step(&self) -> nat {
        self.baby_step as nat
    }

    pub closed spec fn spec_giant_step_diagonals(&self) -> Seq<Vec<Option<RnsPolynomial>>> {
        self.giant_step_diagonals@
    }

    pub closed spec fn spec_level(&self) -> nat {
        self.level as nat
    }

    pub closed spec fn spec_scale_bits(&self) -> nat {
        self.scale_bits as nat
    }

    /// Number of baby-step rotations the evaluation uses, the input included.
    pub open spec fn baby_count(&self) -> nat {
        if self.spec_baby_step() < self.spec_dimension() {
            self.spec_baby_step()
        } else {
            self.spec_dimension()
        }
    }

    /// The grouped diagonals can be evaluated in `context`: at least one is
    /// present, each present one sits at a baby index below the baby count
    /// and is a plaintext at the transform's level.
    pub open spec fn usable_in(&self, context: RnsCkksContext) -> bool {
        &&& self.spec_baby_step() >= 1
        &&& self.spec_dimension() >= 1
        &&& self.spec_level() < context.spec_levels()
        &&& self.spec_giant_step_diagonals().len() * self.spec_baby_step() <= usize::MAX
        &&& exists|g: int, i: int|
            0 <= g < self.spec_giant_step_diagonals().len() && 0 <= i < self.spec_giant_step_diagonals()[g]@.len()
                && (#[trigger] self.spec_giant_step_diagonals()[g]@[i]) is Some
        &&& forall|g: int, i: int|
            0 <= g < self.spec_giant_step_diagonals().len() && 0 <= i < self.spec_giant_step_diagonals()[g]@.len()
                && (#[trigger] self.spec_giant_step_diagonals()[g]@[i]) is Some ==> {
                &&& i < self.baby_count()
                &&& self.spec_giant_step_diagonals()[g]@[i].unwrap().has_shape(
                    context.spec_degree(),
                    context.level_moduli(self.spec_level()),
                )
            }
    }

    /// Assemble encoded diagonals.
    pub fn from_parts(
        diagonals: Vec<RnsPolynomial>,
        dimension: usize,
        baby_step: usize,
        giant_step_diagonals: Vec<Vec<Option<RnsPolynomial>>>,
        level: usize,
        scale_bits: usize,
    ) -> (r: Self)
        ensures
            r.spec_diagonals() == diagonals@,
            r.spec_dimension() == dimension,
            r.spec_baby_step() == baby_step,
            r.spec_giant_step_diagonals() == giant_step_diagonals@,
            r.spec_level() == level,
            r.spec_scale_bits() == scale_bits,
    {
        Self { diagonals, dimension, baby_step, giant_step_diagonals, level, scale_bits }
    }

    pub fn level(&self) -> (r: usize)
        ensures
            r == self.spec_level(),
    {
        self.level
    }

    pub fn scale_bits(&self) -> (r: usize)
        ensures
            r == self.spec_scale_bits(),
    {
        self.scale_bits
    }

    pub fn baby_step(&self) -> (r: usize)
        ensures
            r == self.spec_baby_step(),
    {
        self.baby_step
    }
}

/// The steps `1..dimension` of the plain diagonal method.
pub fn diagonal_transform_rotation_steps(dimension: usize) -> (r: Vec<usize>)
    requires
        dimension > 0,
    ensures
        r@.len() == dimension - 1,
        forall|j: int| 0 <= j < r@.len() ==> #[trigger] r@[j] == j + 1,
{
    let mut steps: Vec<usize> = Vec::new();
    let mut step: usize = 1;
    while step < dimension
        invariant
            1 <= step <= dimension,
            steps@.len() == step - 1,
            forall|j: int| 0 <= j < steps@.len() ==> #[trigger] steps@[j] == j + 1,
        decreases dimension - step,
    {
        steps.push(step);
        step += 1;
    }
    steps
}

/// The baby step of a transform of `dimension` slots: `ceil(sqrt(dimension))`.
pub fn diagonal_transform_bsgs_baby_step(dimension: usize) -> (r: usize)
    requires
        dimension > 0,
        forall|b: nat| #[trigger] square(b) < dimension ==> square(b + 1) <= usize::MAX,
    ensures
        is_ceil_sqrt(r as nat, dimension as nat),
        r == ps_block_size(dimension as nat),
{
    paterson_stockmeyer_block_size(dimension)
}

/// `ceil(dimension / baby_step)`.
fn giant_steps(dimension: usize, baby_step: usize) -> (r: usize)
    requires
        baby_step >= 1,
        baby_step <= dimension,
    ensures
        r == giant_step_count(dimension as nat, baby_step as nat),
        r >= 1,
        (r - 1) * baby_step < dimension,
{
    proof {
        lemma_fundamental_div_mod(dimension as int, baby_step as int);
        lemma_mod_bound(dimension as int, baby_step as int);
        let q = dimension as int / baby_step as int;
        let m = dimension as int % baby_step as int;
        if m != 0 {
            assert(q + 1 <= dimension) by (nonlinear_arith)
                requires
                    dimension == baby_step * q + m,
                    m > 0,
                    m < baby_step,
                    q >= 0,
            ;
        }
    }
    let r = dimension / baby_step + if dimension % baby_step != 0 {
        1
    } else {
        0
    };
    proof {
        lemma_fundamental_div_mod(dimension as int, baby_step as int);
        lemma_mod_bound(dimension as int, baby_step as int);
        let q = dimension as int / baby_step as int;
        let m = dimension as int % baby_step as int;
        if m == 0 {
            assert(dimension + baby_step - 1 == q * baby_step + (baby_step - 1)) by (nonlinear_arith)
                requires
                    dimension == baby_step * q + m,
                    m == 0,
            ;
            lemma_fundamental_div_mod_converse(dimension + baby_step - 1, baby_step as int, q, baby_step - 1);
            assert(q >= 1) by (nonlinear_arith)
                requires
                    dimension == baby_step * q,
                    dimension >= 1,
                    baby_step >= 1,
            ;
            assert((q - 1) * baby_step < dimension) by (nonlinear_arith)
                requires
                    dimension == baby_step * q,
                    baby_step >= 1,
            ;
        } else {
            assert(dimension + baby_step - 1 == (q + 1) * baby_step + (m - 1)) by (nonlinear_arith)
                requires
                    dimension == baby_step * q + m,
            ;
            lemma_fundamental_div_mod_converse(dimension + baby_step - 1, baby_step as int, q + 1, m - 1);
            assert(q * baby_step < dimension) by (nonlinear_arith)
                requires
                    dimension == baby_step * q + m,
                    m > 0,
            ;
        }
    }
    r
}

/// The baby-step giant-step rotation schedule.
pub fn diagonal_transform_bsgs_rotation_steps(dimension: usize) -> (r: Vec<usize>)
    requires
        dimension > 0,
        forall|b: nat| #[trigger] square(b) < dimension ==> square(b + 1) <= usize::MAX,
    ensures
        r@ == bsgs_schedule(dimension as nat),
        forall|j: int| 0 <= j < r@.len() ==> 1 <= #[trigger] r@[j] < dimension,
{
    let baby_step = diagonal_transform_bsgs_baby_step(dimension);
    proof {
        assert(baby_step <= dimension) by (nonlinear_arith)
            requires
                (baby_step - 1) * (baby_step - 1) < dimension,
                baby_step >= 1,
        ;
    }
    let giant_step_count = giant_steps(dimension, baby_step);
    let baby_end = if baby_step < dimension {
        baby_step
    } else {
        dimension
    };
    let mut steps: Vec<usize> = Vec::new();
    let mut baby: usize = 1;
    while baby < baby_end
        invariant
            1 <= baby <= baby_end,
            baby_end <= dimension,
            steps@.len() == baby - 1,
            forall|j: int| 0 <= j < steps@.len() ==> #[trigger] steps@[j] == j + 1,
        decreases baby_end - baby,
    {
        steps.push(baby);
        baby += 1;
    }
    let ghost babies = steps@;
    let mut giant: usize = 1;
    while giant < giant_step_count
        invariant
            1 <= giant <= giant_step_count,
            giant_step_count >= 1,
            (giant_step_count - 1) * baby_step < dimension,
            babies.len() == baby_end - 1,
            steps@.len() == babies.len() + giant - 1,
            steps@.subrange(0, babies.len() as int) == babies,
            forall|k: int|
                0 <= k < giant - 1 ==> #[trigger] steps@[babies.len() + k] == (k + 1) * baby_step,
            forall|j: int| 0 <= j < steps@.len() ==> 1 <= #[trigger] steps@[j] < dimension,
            baby_step >= 1,
        decreases giant_step_count - giant,
    {
        proof {
            lemma_mul_inequality(giant as int, (giant_step_count - 1) as int, baby_step as int);
        }
        let step = giant * baby_step;
        assert(step >= 1) by (nonlinear_arith)
            requires
                step == giant * baby_step,
                giant >= 1,
                baby_step >= 1,
        ;
        if step < dimension {
            steps.push(step);
        }
        assert(steps@.subrange(0, babies.len() as int) =~= babies);
        giant += 1;
    }
    proof {
        let expected = bsgs_schedule(dimension as nat);
        assert forall|j: int| 0 <= j < steps@.len() implies #[trigger] steps@[j] == expected[j] by {
            if j < babies.len() {
                assert(steps@[j] == steps@.subrange(0, babies.len() as int)[j]);
            } else {
                assert(steps@[babies.len() + (j - babies.len())] == (j - babies.len() + 1) * baby_step);
            }
        }
        assert(steps@ =~= expected);
    }
    steps
}

/// Rotation keys at `ciphertext_level` for every step `1..dimension`, which
/// covers both the plain diagonal method and the baby-step giant-step schedule.
pub fn generate_diagonal_transform_rotation_keys<S: ErrorSampler>(
    context: &RnsCkksContext,
    secret_key: &RnsSecretKey,
    public_key: &RnsPublicKey,
    ciphertext_level: usize,
    dimension: usize,
    sampler: &mut S,
) -> (r: DiagonalTransformRotationKeys)
    requires
        context.wf(),
        context.coprime_basis(),
        context.rotation_ready(),
        ciphertext_level < context.spec_levels(),
        secret_key.poly.has_shape(context.spec_degree(), context.moduli()),
        public_key.p0.has_shape(context.spec_degree(), context.moduli()),
        public_key.p1.has_shape(context.spec_degree(), context.moduli()),
        dimension > 0,
        dimension <= isize::MAX,
    ensures
        forall|s: usize| #[trigger] r.by_step@.contains_key(s) <==> 1 <= s < dimension,
        forall|s: usize|
            #[trigger] r.by_step@.contains_key(s) ==> {
                &&& r.by_step@[s].galois_element == rotation_element(context.spec_degree(), s as int)
                &&& context.generated_at(r.by_step@[s].keyswitch_key, ciphertext_level as nat)
                &&& r.by_step@[s].keyswitch_key.aux_level_count == 0
            },
{
    let mut by_step: BTreeMap<usize, RnsRotationKey> = BTreeMap::new();
    let mut step: usize = 1;
    while step < dimension
        invariant
            context.wf(),
            context.coprime_basis(),
            context.rotation_ready(),
            ciphertext_level < context.spec_levels(),
            secret_key.poly.has_shape(context.spec_degree(), context.moduli()),
            public_key.p0.has_shape(context.spec_degree(), context.moduli()),
            public_key.p1.has_shape(context.spec_degree(), context.moduli()),
            dimension <= isize::MAX,
            1 <= step <= dimension,
            forall|s: usize| #[trigger] by_step@.contains_key(s) <==> 1 <= s < step,
            forall|s: usize|
                #[trigger] by_step@.contains_key(s) ==> {
                    &&& by_step@[s].galois_element == rotation_element(context.spec_degree(), s as int)
                    &&& context.generated_at(by_step@[s].keyswitch_key, ciphertext_level as nat)
                    &&& by_step@[s].keyswitch_key.aux_level_count == 0
                },
        decreases dimension - step,
    {
        let key = context.generate_rotation_key_at_level(secret_key, public_key, step as isize, ciphertext_level, sampler);
        by_step.insert(step, key);
        step += 1;
    }
    DiagonalTransformRotationKeys { by_step }
}

/// `values` repeated blockwise to fill `slot_count` slots.
pub fn repeat_block_slots<T: Copy>(values: &[T], slot_count: usize) -> (r: Vec<T>)
    requires
        values@.len() > 0,
        values@.len() <= slot_count,
        (slot_count as nat) % values@.len() == 0,
    ensures
        r@.len() == slot_count,
        forall|i: int| 0 <= i < slot_count ==> #[trigger] r@[i] == values@[i % (values@.len() as int)],
{
    let mut out: Vec<T> = Vec::with_capacity(slot_count);
    let mut index: usize = 0;
    while index < slot_count
        invariant
            values@.len() > 0,
            index <= slot_count,
            out@.len() == index,
            forall|i: int| 0 <= i < index ==> #[trigger] out@[i] == values@[i % (values@.len() as int)],
        decreases slot_count - index,
    {
        out.push(values[index % values.len()]);
        index += 1;
    }
    out
}

/// The dimension of `matrix` when it is a nonempty square matrix whose
/// dimension is a power of two no larger than `slot_count`; `None` otherwise.
pub fn validate_square_matrix<T>(matrix: &[Vec<T>], slot_count: usize) -> (r: Option<usize>)
    ensures
        r is Some <==> {
            &&& matrix@.len() > 0
            &&& is_pow2(matrix@.len() as nat)
            &&& matrix@.len() <= slot_count
            &&& forall|row: int| 0 <= row < matrix@.len() ==> (#[trigger] matrix@[row])@.len() == matrix@.len()
        },
        r is Some ==> r->0 == matrix@.len(),
{
    let dimension = matrix.len();
    if dimension == 0 || !dimension.is_power_of_two() || dimension > slot_count {
        return None;
    }
    let mut row_index: usize = 0;
    while row_index < dimension
        invariant
            dimension == matrix@.len(),
            row_index <= dimension,
            forall|row: int| 0 <= row < row_index ==> (#[trigger] matrix@[row])@.len() == dimension,
        decreases dimension - row_index,
    {
        if matrix[row_index].len() != dimension {
            return None;
        }
        row_index += 1;
    }
    Some(dimension)
}

/// Diagonal `diagonal` of a square matrix in the first slots, zero after them:
/// slot `row` holds `matrix[row][(diagonal + row) mod n]`.
pub fn packed_diagonal_slots<T: Copy>(matrix: &[Vec<T>], diagonal: usize, slot_count: usize, zero: T) -> (r: Vec<T>)
    requires
        matrix@.len() > 0,
        matrix@.len() <= slot_count,
        2 * matrix@.len() <= usize::MAX,
        diagonal < matrix@.len(),
        forall|row: int| 0 <= row < matrix@.len() ==> (#[trigger] matrix@[row])@.len() == matrix@.len(),
    ensures
        r@.len() == slot_count,
        forall|slot: int|
            0 <= slot < slot_count ==> #[trigger] r@[slot] == if slot < matrix@.len() {
                matrix@[slot]@[(diagonal + slot) % (matrix@.len() as int)]
            } else {
                zero
            },
{
    let dimension = matrix.len();
    let mut slots: Vec<T> = Vec::with_capacity(slot_count);
    let mut slot: usize = 0;
    while slot < slot_count
        invariant
            dimension == matrix@.len(),
            dimension > 0,
            dimension <= slot_count,
            2 * dimension <= usize::MAX,
            diagonal < dimension,
            forall|row: int| 0 <= row < dimension ==> (#[trigger] matrix@[row])@.len() == dimension,
            slot <= slot_count,
            slots@.len() == slot,
            forall|i: int|
                0 <= i < slot ==> #[trigger] slots@[i] == if i < dimension {
                    matrix@[i]@[(diagonal + i) % (dimension as int)]
                } else {
                    zero
                },
        decreases slot_count - slot,
    {
        if slot < dimension {
            let column = (diagonal + slot) % dimension;
            slots.push(matrix[slot][column]);
        } else {
            slots.push(zero);
        }
        slot += 1;
    }
    slots
}

/// The diagonal `diagonal_step` of a square matrix shifted back by
/// `giant_shift` rows and tiled with period `n` over all slots: slot `s`
/// holds `matrix[src][(diagonal_step + src) mod n]` with
/// `src = (s mod n - giant_shift) mod n`.
pub fn packed_bsgs_diagonal_slots<T: Copy>(
    matrix: &[Vec<T>],
    diagonal_step: usize,
    giant_shift: usize,
    slot_count: usize,
) -> (r: Vec<T>)
    requires
        matrix@.len() > 0,
        2 * matrix@.len() <= usize::MAX,
        diagonal_step < matrix@.len(),
        forall|row: int| 0 <= row < matrix@.len() ==> (#[trigger] matrix@[row])@.len() == matrix@.len(),
    ensures
        r@.len() == slot_count,
        forall|slot: int|
            0 <= slot < slot_count ==> {
                let n = matrix@.len() as int;
                let source_row = (slot % n - (giant_shift as int) % n + n) % n;
                #[trigger] r@[slot] == matrix@[source_row]@[(diagonal_step + source_row) % n]
            },
{
    let dimension = matrix.len();
    let shift = giant_shift % dimension;
    let mut slots: Vec<T> = Vec::with_capacity(slot_count);
    let mut slot: usize = 0;
    while slot < slot_count
        invariant
            dimension == matrix@.len(),
            dimension > 0,
            shift == giant_shift % dimension,
            2 * dimension <= usize::MAX,
            diagonal_step < dimension,
            forall|row: int| 0 <= row < dimension ==> (#[trigger] matrix@[row])@.len() == dimension,
            slot <= slot_count,
            slots@.len() == slot,
            forall|i: int|
                0 <= i < slot ==> {
                    let n = dimension as int;
                    let source_row = (i % n - (giant_shift as int) % n + n) % n;
                    #[trigger] slots@[i] == matrix@[source_row]@[(diagonal_step + source_row) % n]
                },
        decreases slot_count - slot,
    {
        let row = slot % dimension;
        let source_row = (row + dimension - shift) % dimension;
        let column = (diagonal_step + source_row) % dimension;
        slots.push(matrix[source_row][column]);
        slot += 1;
    }
    slots
}

/// Which diagonal each (giant, baby) position of the evaluation uses:
/// `giant * baby_step + baby` when that is below `dimension`.
pub fn bsgs_diagonal_layout(dimension: usize, baby_step: usize) -> (r: Vec<Vec<Option<usize>>>)
    requires
        1 <= baby_step <= dimension,
    ensures
        r@.len() == giant_step_count(dimension as nat, baby_step as nat),
        forall|g: int|
            0 <= g < r@.len() ==> {
                &&& (#[trigger] r@[g])@.len() == baby_step
                &&& forall|i: int|
                    0 <= i < baby_step ==> #[trigger] r@[g]@[i] == if g * baby_step + i < dimension {
                        Some((g * baby_step + i) as usize)
                    } else {
                        None
                    }
            },
{
    let giant_count = giant_steps(dimension, baby_step);
    let mut layout: Vec<Vec<Option<usize>>> = Vec::with_capacity(giant_count);
    let mut giant: usize = 0;
    while giant < giant_count
        invariant
            giant_count == giant_step_count(dimension as nat, baby_step as nat),
            (giant_count - 1) * baby_step < dimension,
            1 <= baby_step <= dimension,
            giant <= giant_count,
            layout@.len() == giant,
            forall|g: int|
                0 <= g < giant ==> {
                    &&& (#[trigger] layout@[g])@.len() == baby_step
                    &&& forall|i: int|
                        0 <= i < baby_step ==> #[trigger] layout@[g]@[i] == if g * baby_step + i < dimension {
                            Some((g * baby_step + i) as usize)
                        } else {
                            None
                        }
                },
        decreases giant_count - giant,
    {
        proof {
            lemma_mul_inequality(giant as int, (giant_count - 1) as int, baby_step as int);
        }
        let shift = giant * baby_step;
        let mut row: Vec<Option<usize>> = Vec::with_capacity(baby_step);
        let mut baby: usize = 0;
        while baby < baby_step
            invariant
                shift == giant * baby_step,
                shift < dimension,
                baby <= baby_step,
                row@.len() == baby,
                forall|i: int|
                    0 <= i < baby ==> #[trigger] row@[i] == if shift + i < dimension {
                        Some((shift + i) as usize)
                    } else {
                        None
                    },
            decreases baby_step - baby,
        {
            if baby < dimension - shift {
                row.push(Some(shift + baby));
            } else {
                row.push(None);
            }
            baby += 1;
        }
        layout.push(row);
        giant += 1;
    }
    layout
}

/// `babies` are `ct` and its rotations by the baby steps `1..count`.
pub open spec fn is_baby_rotations(
    babies: Seq<RnsCiphertext>,
    ct: RnsCiphertext,
    keys: Map<usize, RnsRotationKey>,
    count: nat,
    degree: nat,
    moduli: Seq<u64>,
) -> bool {
    &&& babies.len() == count
    &&& count > 0
    &&& same_ciphertext(babies[0], ct)
    &&& forall|b: int| 1 <= b < count ==> is_rotation_of(#[trigger] babies[b], ct, keys[b as usize], degree, moduli)
}

/// Step `i` of a running sum of optional terms: a missing term keeps the
/// sum, a present one starts it or is added to it.
pub open spec fn partial_sum_step(sums: Seq<Option<RnsCiphertext>>, terms: Seq<Option<RnsCiphertext>>, i: int) -> bool {
    match terms[i] {
        None => sums[i + 1] == sums[i],
        Some(t) => match sums[i] {
            None => sums[i + 1] == Some(t),
            Some(acc) => sums[i + 1] is Some && is_ciphertext_sum(sums[i + 1]->0, acc, t),
        },
    }
}

/// `sums` are the running sums of `terms`, starting from no sum.
pub open spec fn is_partial_sums(sums: Seq<Option<RnsCiphertext>>, terms: Seq<Option<RnsCiphertext>>) -> bool {
    &&& sums.len() == terms.len() + 1
    &&& sums[0] is None
    &&& forall|i: int| 0 <= i < terms.len() ==> #[trigger] partial_sum_step(sums, terms, i)
}

/// `r` is the sum, in order, of the present `terms`; `None` when none is present.
pub open spec fn is_sum_of_present(r: Option<RnsCiphertext>, terms: Seq<Option<RnsCiphertext>>) -> bool {
    exists|sums: Seq<Option<RnsCiphertext>>| #[trigger] is_partial_sums(sums, terms) && sums.last() == r
}

/// Term `b` of a giant group: baby rotation `b` times diagonal `b` of the
/// group, when that diagonal is present.
pub open spec fn is_group_term(term: Option<RnsCiphertext>, baby: RnsCiphertext, diagonal: Option<RnsPolynomial>) -> bool {
    match diagonal {
        None => term is None,
        Some(d) => term is Some && is_plain_product(term->0, baby, d),
    }
}

/// `r` is the sum of the present diagonals of `group` times their baby rotations.
pub open spec fn is_group_sum(
    r: Option<RnsCiphertext>,
    babies: Seq<RnsCiphertext>,
    group: Seq<Option<RnsPolynomial>>,
) -> bool {
    exists|terms: Seq<Option<RnsCiphertext>>|
        #[trigger] is_sum_of_present(r, terms) && terms.len() == group.len() && forall|b: int|
            0 <= b < group.len() ==> #[trigger] is_group_term(terms[b], babies[b], group[b])
}

/// Term `g` of the outer sum: group sum `g`, rotated by the giant step
/// `g * baby_step` when `g > 0`.
pub open spec fn is_giant_term(
    term: Option<RnsCiphertext>,
    inner: Option<RnsCiphertext>,
    g: int,
    keys: Map<usize, RnsRotationKey>,
    baby_step: nat,
    degree: nat,
    moduli: Seq<u64>,
) -> bool {
    match inner {
        None => term is None,
        Some(x) => term is Some && if g == 0 {
            term->0 == x
        } else {
            is_rotation_of(term->0, x, keys[(g * baby_step) as usize], degree, moduli)
        },
    }
}

/// The group sums `inners` and the outer terms `terms` of an evaluation of
/// the grouped diagonals on `babies`.
pub open spec fn is_giant_terms(
    inners: Seq<Option<RnsCiphertext>>,
    terms: Seq<Option<RnsCiphertext>>,
    babies: Seq<RnsCiphertext>,
    groups: Seq<Vec<Option<RnsPolynomial>>>,
    keys: Map<usize, RnsRotationKey>,
    baby_step: nat,
    degree: nat,
    moduli: Seq<u64>,
) -> bool {
    &&& inners.len() == groups.len()
    &&& terms.len() == groups.len()
    &&& forall|g: int| 0 <= g < groups.len() ==> #[trigger] is_group_sum(inners[g], babies, groups[g]@)
    &&& forall|g: int|
        0 <= g < groups.len() ==> #[trigger] is_giant_term(terms[g], inners[g], g, keys, baby_step, degree, moduli)
}

/// `total` is the baby-step giant-step evaluation, before rescaling, of the
/// grouped diagonals on the baby rotations `babies`.
pub open spec fn is_bsgs_total(
    total: RnsCiphertext,
    babies: Seq<RnsCiphertext>,
    groups: Seq<Vec<Option<RnsPolynomial>>>,
    keys: Map<usize, RnsRotationKey>,
    baby_step: nat,
    degree: nat,
    moduli: Seq<u64>,
) -> bool {
    exists|inners: Seq<Option<RnsCiphertext>>, terms: Seq<Option<RnsCiphertext>>|
        #[trigger] is_giant_terms(inners, terms, babies, groups, keys, baby_step, degree, moduli)
            && is_sum_of_present(Some(total), terms)
}

/// `r` is the diagonal transform of `ct`: the sum over giant groups `g` of
/// the rotation by `g * baby_step` of the group's diagonals times the baby
/// rotations of `ct`, divided by the last prime.
pub open spec fn is_diagonal_transform_of(
    r: RnsCiphertext,
    ct: RnsCiphertext,
    diagonals: DiagonalTransformPlaintexts,
    keys: DiagonalTransformRotationKeys,
    degree: nat,
    moduli: Seq<u64>,
) -> bool {
    exists|babies: Seq<RnsCiphertext>, total: RnsCiphertext|
        #![trigger is_baby_rotations(babies, ct, keys.by_step@, diagonals.baby_count(), degree, moduli), is_bsgs_total(total, babies, diagonals.spec_giant_step_diagonals(), keys.by_step@, diagonals.spec_baby_step(), degree, moduli)]
        {
            &&& is_baby_rotations(babies, ct, keys.by_step@, diagonals.baby_count(), degree, moduli)
            &&& is_bsgs_total(
                total,
                babies,
                diagonals.spec_giant_step_diagonals(),
                keys.by_step@,
                diagonals.spec_baby_step(),
                degree,
                moduli,
            )
            &&& is_rescaled(r.c0, total.c0)
            &&& is_rescaled(r.c1, total.c1)
        }
}

/// Appending a step that follows the running sums keeps them running sums.
proof fn lemma_partial_sums_push(
    sums: Seq<Option<RnsCiphertext>>,
    terms: Seq<Option<RnsCiphertext>>,
    next_sum: Option<RnsCiphertext>,
    next_term: Option<RnsCiphertext>,
)
    requires
        is_partial_sums(sums, terms),
        partial_sum_step(sums.push(next_sum), terms.push(next_term), terms.len() as int),
    ensures
        is_partial_sums(sums.push(next_sum), terms.push(next_term)),
{
    let s2 = sums.push(next_sum);
    let t2 = terms.push(next_term);
    assert forall|i: int| 0 <= i < t2.len() implies #[trigger] partial_sum_step(s2, t2, i) by {
        if i < terms.len() {
            assert(partial_sum_step(sums, terms, i));
            assert(s2[i] == sums[i]);
            assert(s2[i + 1] == sums[i + 1]);
            assert(t2[i] == terms[i]);
        }
    }
}

/// The input and its rotations by the baby steps `1..baby_count`.
fn precompute_baby_rotations(
    context: &RnsCkksContext,
    ciphertext: &RnsCiphertext,
    diagonals: &DiagonalTransformPlaintexts,
    rotation_keys: &DiagonalTransformRotationKeys,
) -> (r: Vec<RnsCiphertext>)
    requires
        context.wf(),
        context.coprime_basis(),
        context.rotation_ready(),
        context.holds(*ciphertext),
        diagonals.spec_baby_step() >= 1,
        diagonals.spec_dimension() >= 1,
        forall|s: usize|
            1 <= s < diagonals.baby_count() ==> {
                &&& #[trigger] rotation_keys.by_step@.contains_key(s)
                &&& context.rotation_key_usable(rotation_keys.by_step@[s], ciphertext.level as nat)
            },
    ensures
        r@.len() == diagonals.baby_count(),
        forall|i: int|
            0 <= i < r@.len() ==> {
                &&& context.holds(#[trigger] r@[i])
                &&& r@[i].level == ciphertext.level
                &&& r@[i].scale_bits == ciphertext.scale_bits
            },
        is_baby_rotations(
            r@,
            *ciphertext,
            rotation_keys.by_step@,
            diagonals.baby_count(),
            context.spec_degree(),
            context.level_moduli(ciphertext.level as nat),
        ),
{
    let count = if diagonals.baby_step < diagonals.dimension {
        diagonals.baby_step
    } else {
        diagonals.dimension
    };
    let mut baby_rotations: Vec<RnsCiphertext> = Vec::with_capacity(count);
    let first = ciphertext.duplicate();
    proof {
        let m = context.level_moduli(ciphertext.level as nat);
        assert(ciphertext.c0.spec_moduli() =~= m);
    }
    baby_rotations.push(first);
    let mut baby: usize = 1;
    while baby < count
        invariant
            context.wf(),
            context.coprime_basis(),
            context.rotation_ready(),
            context.holds(*ciphertext),
            count == diagonals.baby_count(),
            forall|s: usize|
                1 <= s < diagonals.baby_count() ==> {
                    &&& #[trigger] rotation_keys.by_step@.contains_key(s)
                    &&& context.rotation_key_usable(rotation_keys.by_step@[s], ciphertext.level as nat)
                },
            1 <= baby <= count,
            baby_rotations@.len() == baby,
            forall|i: int|
                0 <= i < baby_rotations@.len() ==> {
                    &&& context.holds(#[trigger] baby_rotations@[i])
                    &&& baby_rotations@[i].level == ciphertext.level
                    &&& baby_rotations@[i].scale_bits == ciphertext.scale_bits
                },
            same_ciphertext(baby_rotations@[0], *ciphertext),
            forall|b: int|
                1 <= b < baby ==> is_rotation_of(
                    #[trigger] baby_rotations@[b],
                    *ciphertext,
                    rotation_keys.by_step@[b as usize],
                    context.spec_degree(),
                    context.level_moduli(ciphertext.level as nat),
                ),
        decreases count - baby,
    {
        let rotation_key = match rotation_keys.by_step.get(&baby) {
            Some(key) => key,
            None => {
                proof {
                    assert(rotation_keys.by_step@.contains_key(baby));
                    assert(false);
                }
                return baby_rotations;
            },
        };
        baby_rotations.push(context.rotate(ciphertext, rotation_key));
        baby += 1;
    }
    baby_rotations
}

/// The sum of the present diagonals times their baby rotations, unrescaled;
/// `None` when no diagonal of the group is present.
fn apply_giant_step_terms(
    context: &RnsCkksContext,
    baby_rotations: &Vec<RnsCiphertext>,
    giant_diagonals: &Vec<Option<RnsPolynomial>>,
    level: usize,
    scale_bits: usize,
) -> (r: Option<RnsCiphertext>)
    requires
        context.wf(),
        level < context.spec_levels(),
        2 * scale_bits <= usize::MAX,
        forall|i: int|
            0 <= i < baby_rotations@.len() ==> {
                &&& context.holds(#[trigger] baby_rotations@[i])
                &&& baby_rotations@[i].level == level
                &&& baby_rotations@[i].scale_bits == scale_bits
            },
        forall|i: int|
            0 <= i < giant_diagonals@.len() && (#[trigger] giant_diagonals@[i]) is Some ==> {
                &&& i < baby_rotations@.len()
                &&& giant_diagonals@[i].unwrap().has_shape(context.spec_degree(), context.level_moduli(level as nat))
            },
    ensures
        r is Some <==> exists|i: int| 0 <= i < giant_diagonals@.len() && (#[trigger] giant_diagonals@[i]) is Some,
        r matches Some(c) ==> {
            &&& context.holds(c)
            &&& c.level == level
            &&& c.scale_bits == 2 * scale_bits
        },
        is_group_sum(r, baby_rotations@, giant_diagonals@),
{
    let mut accumulator: Option<RnsCiphertext> = None;
    let mut i: usize = 0;
    let ghost mut terms: Seq<Option<RnsCiphertext>> = Seq::empty();
    let ghost mut sums: Seq<Option<RnsCiphertext>> = seq![None];
    while i < giant_diagonals.len()
        invariant
            context.wf(),
            level < context.spec_levels(),
            2 * scale_bits <= usize::MAX,
            forall|j: int|
                0 <= j < baby_rotations@.len() ==> {
                    &&& context.holds(#[trigger] baby_rotations@[j])
                    &&& baby_rotations@[j].level == level
                    &&& baby_rotations@[j].scale_bits == scale_bits
                },
            forall|j: int|
                0 <= j < giant_diagonals@.len() && (#[trigger] giant_diagonals@[j]) is Some ==> {
                    &&& j < baby_rotations@.len()
                    &&& giant_diagonals@[j].unwrap().has_shape(context.spec_degree(), context.level_moduli(level as nat))
                },
            i <= giant_diagonals@.len(),
            accumulator is Some <==> exists|j: int| 0 <= j < i && (#[trigger] giant_diagonals@[j]) is Some,
            accumulator matches Some(c) ==> {
                &&& context.holds(c)
                &&& c.level == level
                &&& c.scale_bits == 2 * scale_bits
            },
            terms.len() == i,
            forall|b: int|
                0 <= b < i ==> #[trigger] is_group_term(terms[b], baby_rotations@[b], giant_diagonals@[b]),
            is_partial_sums(sums, terms),
            sums.last() == accumulator,
        decreases giant_diagonals@.len() - i,
    {
        let ghost old_terms = terms;
        match &giant_diagonals[i] {
            Some(diagonal) => {
                let term = context.mult_plain(&baby_rotations[i], diagonal);
                let ghost new_term = term;
                accumulator = match accumulator {
                    None => Some(term),
                    Some(acc) => {
                        proof {
                            let m = context.level_moduli(level as nat);
                            assert(acc.c0.spec_moduli() =~= m);
                            assert(term.c0.spec_moduli() =~= m);
                            assert forall|l: int| 0 <= l < acc.c0.spec_levels() implies (
                            #[trigger] acc.c0.spec_residues()[l]).compatible(&term.c0.spec_residues()[l]) by {
                                assert(acc.c0.spec_residues()[l].spec_modulus() == m[l]);
                                assert(term.c0.spec_residues()[l].spec_modulus() == m[l]);
                            }
                        }
                        let next = acc.add(&term);
                        proof {
                            let m = context.level_moduli(level as nat);
                            crate::rns::context::ops::lemma_sum_shape(next.c0, acc.c0, context.spec_degree(), m);
                            crate::rns::context::ops::lemma_sum_shape(next.c1, acc.c1, context.spec_degree(), m);
                        }
                        Some(next)
                    },
                };
                proof {
                    assert(giant_diagonals@[i as int] is Some);
                    assert(is_group_term(Some(new_term), baby_rotations@[i as int], giant_diagonals@[i as int]));
                    lemma_partial_sums_push(sums, terms, accumulator, Some(new_term));
                    terms = terms.push(Some(new_term));
                    sums = sums.push(accumulator);
                }
            },
            None => {
                proof {
                    lemma_partial_sums_push(sums, terms, accumulator, None);
                    terms = terms.push(None);
                    sums = sums.push(accumulator);
                }
            },
        }
        proof {
            assert forall|b: int| 0 <= b < i + 1 implies #[trigger] is_group_term(
                terms[b],
                baby_rotations@[b],
                giant_diagonals@[b],
            ) by {
                if b < i {
                    assert(is_group_term(old_terms[b], baby_rotations@[b], giant_diagonals@[b]));
                }
            }
        }
        proof {
            assert((exists|j: int| 0 <= j < i + 1 && (#[trigger] giant_diagonals@[j]) is Some) <==> ((exists|j: int|
                0 <= j < i && (#[trigger] giant_diagonals@[j]) is Some) || giant_diagonals@[i as int] is Some));
        }
        i += 1;
    }
    proof {
        assert(is_partial_sums(sums, terms));
        assert(is_sum_of_present(accumulator, terms));
    }
    accumulator
}

/// Everything the evaluation of `diagonals` on `ciphertext` needs: a coprime
/// basis with rotations, a ciphertext of the context above the bottom level,
/// usable diagonals at its level and scale, and a usable rotation key for
/// every baby step and every giant step.
pub open spec fn transform_ready(
    context: RnsCkksContext,
    ciphertext: RnsCiphertext,
    diagonals: DiagonalTransformPlaintexts,
    rotation_keys: DiagonalTransformRotationKeys,
) -> bool {
    &&& context.wf()
    &&& context.coprime_basis()
    &&& context.rotation_ready()
    &&& context.holds(ciphertext)
    &&& ciphertext.level > 0
    &&& 2 * ciphertext.scale_bits <= usize::MAX
    &&& diagonals.usable_in(context)
    &&& diagonals.spec_level() == ciphertext.level
    &&& diagonals.spec_scale_bits() == ciphertext.scale_bits
    &&& forall|s: usize|
        1 <= s < diagonals.baby_count() ==> {
            &&& #[trigger] rotation_keys.by_step@.contains_key(s)
            &&& context.rotation_key_usable(rotation_keys.by_step@[s], ciphertext.level as nat)
        }
    &&& forall|g: int|
        1 <= g < diagonals.spec_giant_step_diagonals().len() ==> {
            &&& #[trigger] rotation_keys.by_step@.contains_key((g * diagonals.spec_baby_step()) as usize)
            &&& context.rotation_key_usable(
                rotation_keys.by_step@[(g * diagonals.spec_baby_step()) as usize],
                ciphertext.level as nat,
            )
        }
}

/// Evaluate a diagonal transform by baby steps and giant steps: each giant
/// group of diagonals is applied to the baby rotations, rotated by its giant
/// step, summed, and the sum is rescaled once.
pub fn apply_diagonal_linear_transform(
    context: &RnsCkksContext,
    ciphertext: &RnsCiphertext,
    diagonals: &DiagonalTransformPlaintexts,
    rotation_keys: &DiagonalTransformRotationKeys,
) -> (r: RnsCiphertext)
    requires
        transform_ready(*context, *ciphertext, *diagonals, *rotation_keys),
    ensures
        context.holds(r),
        r.level == ciphertext.level - 1,
        r.scale_bits == rescaled_scale_bits(
            (2 * ciphertext.scale_bits) as nat,
            bit_length(context.level_moduli(ciphertext.level as nat).last() as nat),
        ),
        is_diagonal_transform_of(
            r,
            *ciphertext,
            *diagonals,
            *rotation_keys,
            context.spec_degree(),
            context.level_moduli(ciphertext.level as nat),
        ),
{
    let baby_rotations = precompute_baby_rotations(context, ciphertext, diagonals, rotation_keys);
    let giant_groups = &diagonals.giant_step_diagonals;
    let mut accumulator: Option<RnsCiphertext> = None;
    let mut giant: usize = 0;
    let ghost n = context.spec_degree();
    let ghost m = context.level_moduli(ciphertext.level as nat);
    let ghost keys = rotation_keys.by_step@;
    let ghost baby_step = diagonals.spec_baby_step();
    let ghost mut inners: Seq<Option<RnsCiphertext>> = Seq::empty();
    let ghost mut terms: Seq<Option<RnsCiphertext>> = Seq::empty();
    let ghost mut sums: Seq<Option<RnsCiphertext>> = seq![None];
    while giant < giant_groups.len()
        invariant
            context.wf(),
            context.coprime_basis(),
            context.rotation_ready(),
            context.holds(*ciphertext),
            2 * ciphertext.scale_bits <= usize::MAX,
            diagonals.usable_in(*context),
            diagonals.spec_level() == ciphertext.level,
            giant_groups@ == diagonals.spec_giant_step_diagonals(),
            baby_rotations@.len() == diagonals.baby_count(),
            forall|i: int|
                0 <= i < baby_rotations@.len() ==> {
                    &&& context.holds(#[trigger] baby_rotations@[i])
                    &&& baby_rotations@[i].level == ciphertext.level
                    &&& baby_rotations@[i].scale_bits == ciphertext.scale_bits
                },
            forall|g: int|
                1 <= g < diagonals.spec_giant_step_diagonals().len() ==> {
                    &&& #[trigger] rotation_keys.by_step@.contains_key((g * diagonals.spec_baby_step()) as usize)
                    &&& context.rotation_key_usable(
                        rotation_keys.by_step@[(g * diagonals.spec_baby_step()) as usize],
                        ciphertext.level as nat,
                    )
                },
            giant <= giant_groups@.len(),
            accumulator is Some <==> exists|g: int, i: int|
                0 <= g < giant && 0 <= i < giant_groups@[g]@.len() && (#[trigger] giant_groups@[g]@[i]) is Some,
            accumulator matches Some(c) ==> {
                &&& context.holds(c)
                &&& c.level == ciphertext.level
                &&& c.scale_bits == 2 * ciphertext.scale_bits
            },
            n == context.spec_degree(),
            m == context.level_moduli(ciphertext.level as nat),
            keys == rotation_keys.by_step@,
            baby_step == diagonals.spec_baby_step(),
            inners.len() == giant,
            terms.len() == giant,
            forall|g: int| 0 <= g < giant ==> #[trigger] is_group_sum(inners[g], baby_rotations@, giant_groups@[g]@),
            forall|g: int|
                0 <= g < giant ==> #[trigger] is_giant_term(terms[g], inners[g], g, keys, baby_step, n, m),
            is_partial_sums(sums, terms),
            sums.last() == accumulator,
        decreases giant_groups@.len() - giant,
    {
        let group = &giant_groups[giant];
        let inner = apply_giant_step_terms(context, &baby_rotations, group, ciphertext.level, ciphertext.scale_bits);
        let ghost new_inner = inner;
        let ghost old_inners = inners;
        let ghost old_terms = terms;
        match inner {
            Some(inner_sum) => {
                let term = if giant == 0 {
                    inner_sum
                } else {
                    proof {
                        lemma_mul_inequality(giant as int, giant_groups@.len() as int, diagonals.spec_baby_step() as int);
                    }
                    let giant_step = giant * diagonals.baby_step;
                    let rotation_key = match rotation_keys.by_step.get(&giant_step) {
                        Some(key) => key,
                        None => {
                            proof {
                                assert(rotation_keys.by_step@.contains_key(
                                    (giant as int * diagonals.spec_baby_step()) as usize,
                                ));
                                assert(false);
                            }
                            return ciphertext.duplicate();
                        },
                    };
                    let rotated = context.rotate(&inner_sum, rotation_key);
                    proof {
                        assert(giant_step == (giant as int * baby_step) as usize);
                        assert(is_rotation_of(rotated, inner_sum, keys[(giant as int * baby_step) as usize], n, m));
                    }
                    rotated
                };
                let ghost new_term = term;
                accumulator = match accumulator {
                    None => Some(term),
                    Some(acc) => {
                        proof {
                            let m = context.level_moduli(ciphertext.level as nat);
                            assert(acc.c0.spec_moduli() =~= m);
                            assert(term.c0.spec_moduli() =~= m);
                            assert forall|l: int| 0 <= l < acc.c0.spec_levels() implies (
                            #[trigger] acc.c0.spec_residues()[l]).compatible(&term.c0.spec_residues()[l]) by {
                                assert(acc.c0.spec_residues()[l].spec_modulus() == m[l]);
                                assert(term.c0.spec_residues()[l].spec_modulus() == m[l]);
                            }
                        }
                        let next = acc.add(&term);
                        proof {
                            let m = context.level_moduli(ciphertext.level as nat);
                            crate::rns::context::ops::lemma_sum_shape(next.c0, acc.c0, context.spec_degree(), m);
                            crate::rns::context::ops::lemma_sum_shape(next.c1, acc.c1, context.spec_degree(), m);
                        }
                        Some(next)
                    },
                };
                proof {
                    assert(is_giant_term(Some(new_term), new_inner, giant as int, keys, baby_step, n, m));
                    lemma_partial_sums_push(sums, terms, accumulator, Some(new_term));
                    terms = terms.push(Some(new_term));
                    sums = sums.push(accumulator);
                }
            },
            None => {
                proof {
                    assert(is_giant_term(None, new_inner, giant as int, keys, baby_step, n, m));
                    lemma_partial_sums_push(sums, terms, accumulator, None);
                    terms = terms.push(None);
                    sums = sums.push(accumulator);
                }
            },
        }
        proof {
            inners = inners.push(new_inner);
            assert forall|g: int| 0 <= g < giant + 1 implies #[trigger] is_group_sum(
                inners[g],
                baby_rotations@,
                giant_groups@[g]@,
            ) by {
                if g < giant {
                    assert(inners[g] == old_inners[g]);
                }
            }
            assert forall|g: int| 0 <= g < giant + 1 implies #[trigger] is_giant_term(
                terms[g],
                inners[g],
                g,
                keys,
                baby_step,
                n,
                m,
            ) by {
                if g < giant {
                    assert(inners[g] == old_inners[g]);
                    assert(terms[g] == old_terms[g]);
                    assert(is_giant_term(old_terms[g], old_inners[g], g, keys, baby_step, n, m));
                }
            }
        }
        proof {
            let groups = giant_groups@;
            let g0 = giant as int;
            assert((exists|g: int, i: int|
                0 <= g < g0 + 1 && 0 <= i < groups[g]@.len() && (#[trigger] groups[g]@[i]) is Some) <==> ((exists|
                g: int,
                i: int,
            | 0 <= g < g0 && 0 <= i < groups[g]@.len() && (#[trigger] groups[g]@[i]) is Some) || (exists|i: int|
                0 <= i < groups[g0]@.len() && (#[trigger] groups[g0]@[i]) is Some))) by {
                if exists|i: int| 0 <= i < groups[g0]@.len() && (#[trigger] groups[g0]@[i]) is Some {
                    let i = choose|i: int| 0 <= i < groups[g0]@.len() && (#[trigger] groups[g0]@[i]) is Some;
                    assert(0 <= g0 < g0 + 1 && 0 <= i < groups[g0]@.len() && groups[g0]@[i] is Some);
                }
            }
        }
        giant += 1;
    }
    let total = match accumulator {
        Some(acc) => acc,
        None => {
            proof {
                let g = choose|g: int, i: int|
                    0 <= g < diagonals.spec_giant_step_diagonals().len() && 0 <= i
                        < diagonals.spec_giant_step_diagonals()[g]@.len()
                        && (#[trigger] diagonals.spec_giant_step_diagonals()[g]@[i]) is Some;
                assert(false);
            }
            return ciphertext.duplicate();
        },
    };
    let r = context.rescale(&total);
    proof {
        assert(giant_groups@ == diagonals.spec_giant_step_diagonals());
        assert(is_giant_terms(inners, terms, baby_rotations@, giant_groups@, keys, baby_step, n, m));
        assert(is_partial_sums(sums, terms));
        assert(is_sum_of_present(Some(total), terms));
        assert(is_bsgs_total(total, baby_rotations@, giant_groups@, keys, baby_step, n, m));
        assert(is_baby_rotations(baby_rotations@, *ciphertext, keys, diagonals.baby_count(), n, m));
    }
    r
}

} // verus!
