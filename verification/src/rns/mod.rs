//! Residue-number-system CKKS: bases of NTT-friendly primes, RNS polynomials,
//! keys, ciphertexts, key switching and rotations.

use vstd::prelude::*;

pub mod basis;
pub mod ciphertexts;
pub mod context;
pub mod coprime;
pub mod encoding;
pub mod keys;
pub mod keyswitching;
pub mod ops;
pub mod polynomial;
pub mod rotation;
pub mod hybrid_switching;
pub mod switching;

pub use basis::{RnsContext, RnsPrime};
pub use ciphertexts::{RnsCiphertext, RnsQuadraticCiphertext};
pub use context::{RnsCkksContext, RnsCkksParams};
pub use keys::{ErrorSampler, RnsKeyPair, RnsPublicKey, RnsSecretKey};
pub use keyswitching::RnsKeySwitchingKey;
pub use polynomial::RnsPolynomial;
pub use rotation::{galois_element_for_rotation, RnsRotationKey, GALOIS_GENERATOR};

verus! {

/// Bits per digit of the gadget decomposition used by key switching.
pub const RNS_DECOMP_BITS: usize = 30;

} // verus!
