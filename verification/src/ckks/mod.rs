//! CKKS-level constructions on top of the RNS primitives.

pub mod bootstrapping;
