//! Packed-diagonal plaintext-matrix by encrypted-vector product: the matrix
//! diagonals are packed plaintexts and the encrypted vector is repeated
//! blockwise, so that slot rotations are cyclic shifts of the active block.
//! Encoding the real matrix lives with the floating-point encoder; the
//! rotation schedule, its keys and the product itself are here.

use vstd::prelude::*;

use crate::ckks::bootstrapping::linear_transform::{
    apply_diagonal_linear_transform,
    diagonal_transform_rotation_steps,
    generate_diagonal_transform_rotation_keys,
    is_diagonal_transform_of,
    transform_ready,
    DiagonalTransformPlaintexts,
    DiagonalTransformRotationKeys,
};
use crate::ckks::bootstrapping::keys::{rotation_keys_ready_for, transform_keys_for};
use crate::math::bignum::bit_length;
use crate::rns::ops::rescaled_scale_bits;
use crate::rns::{ErrorSampler, RnsCiphertext, RnsCkksContext, RnsPublicKey, RnsSecretKey};

verus! {

pub type PackedDiagonalRotationKeys = DiagonalTransformRotationKeys;

pub type PackedDiagonalPlaintexts = DiagonalTransformPlaintexts;

/// The steps `1..row_count`.
pub fn packed_diagonal_rotation_steps(row_count: usize) -> (r: Vec<usize>)
    requires
        row_count > 0,
    ensures
        r@.len() == row_count - 1,
        forall|j: int| 0 <= j < r@.len() ==> #[trigger] r@[j] == j + 1,
{
    diagonal_transform_rotation_steps(row_count)
}

/// Rotation keys for the product with a matrix of `row_count` rows.
pub fn generate_packed_diagonal_rotation_keys<S: ErrorSampler>(
    context: &RnsCkksContext,
    secret_key: &RnsSecretKey,
    public_key: &RnsPublicKey,
    ciphertext_level: usize,
    row_count: usize,
    sampler: &mut S,
) -> (r: PackedDiagonalRotationKeys)
    requires
        rotation_keys_ready_for(*context, *secret_key, *public_key, ciphertext_level as nat, row_count as nat),
    ensures
        transform_keys_for(*context, r.by_step@, row_count as nat, ciphertext_level as nat),
{
    generate_diagonal_transform_rotation_keys(context, secret_key, public_key, ciphertext_level, row_count, sampler)
}

/// The product of prepacked diagonals with an encrypted vector.
pub fn packed_diagonal_matvec_prepacked(
    context: &RnsCkksContext,
    ciphertext: &RnsCiphertext,
    diagonals: &PackedDiagonalPlaintexts,
    rotation_keys: &PackedDiagonalRotationKeys,
) -> (r: RnsCiphertext)
    requires
        transform_ready(*context, *ciphertext, *diagonals, *rotation_keys),
    ensures
        context.holds(r),
        r.level == ciphertext.level - 1,
        r.scale_bits == rescaled_scale_bits(
            (2 * ciphertext.scale_bits) as nat,
            bit_length(context.level_moduli(ciphertext.level as nat).last() as nat),
        ),
        is_diagonal_transform_of(
            r,
            *ciphertext,
            *diagonals,
            *rotation_keys,
            context.spec_degree(),
            context.level_moduli(ciphertext.level as nat),
        ),
{
    apply_diagonal_linear_transform(context, ciphertext, diagonals, rotation_keys)
}

} // verus!
