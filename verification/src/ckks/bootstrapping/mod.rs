//! The structural parts of CKKS bootstrapping: the parameters of a bootstrap,
//! the key sets its stages need, ModRaise into the evaluation basis, and the
//! baby-step giant-step diagonal linear transforms of CoeffToSlot.

pub mod coeff_to_slot;
pub mod eval_mod;
pub mod keys;
pub mod linear_transform;
pub mod mod_raise;
pub mod params;

pub use keys::BootstrapKeySet;
pub use params::BootstrapParameters;
