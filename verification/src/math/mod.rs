//! Number-theoretic helpers: modular arithmetic facts, NTT plans and
//! arbitrary-precision naturals.

pub mod arith;
pub mod bignum;
pub mod dft;
pub mod ntt;
pub mod text;
