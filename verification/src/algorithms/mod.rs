//! Algorithms built on the RNS CKKS primitives: rotation-step schedules and
//! their key sets, logarithmic folds, packed-diagonal products and the level
//! budget of Paterson-Stockmeyer evaluation.

pub mod halevi_shoup;
pub mod packed_diagonal;
pub mod paterson_stockmeyer;
pub mod total_sum;
