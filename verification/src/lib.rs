//! RNS CKKS homomorphic encryption: modular polynomial arithmetic, NTT plans,
//! residue-number-system polynomials, key generation, encryption, key
//! switching, rotations and the structural parts of bootstrapping.

pub mod algorithms;
pub mod ckks;
pub mod math;
pub mod poly;
pub mod rns;
