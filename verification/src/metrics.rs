//! Metrics for branch and bound.
pub mod changeless;
pub mod changeless_bounds;
pub mod exact_bounds;
pub mod greedy_bound;
pub mod lowest_fee;
pub mod lowest_fee_bounds;
pub mod lowest_fee_changeless;
pub mod lowest_fee_laws;
pub mod near_bounds;

pub use crate::metrics::changeless::Changeless;
pub use crate::metrics::lowest_fee::LowestFee;
pub use crate::metrics::lowest_fee_changeless::LowestFeeChangeless;
