//! Coin selection for Bitcoin transactions, with every function proved against its contract.
use vstd::prelude::*;

pub mod ancestor_totals;
pub mod ancestry;
pub mod ancestry_laws;
pub mod bitset;
pub mod bitset_laws;
pub mod bnb;
pub mod bnb_iter;
pub mod bump_laws;
pub mod bump_table;
pub mod candidate;
pub mod cluster_graph;
pub mod cluster_laws;
pub mod coin_selector;
pub mod drain;
pub mod errors;
pub mod facts;
pub mod fee_laws;
pub mod feerate;
pub mod laws;
pub mod limits;
pub mod mempool;
pub mod metrics;
pub mod model;
pub mod ordering;
pub mod orders;
pub mod problem_laws;
pub mod ratio;
pub mod search;
pub mod search_laws;
pub mod selection_cache;
pub mod selection_problem;
pub mod selection_view;
pub mod selector_laws;
pub mod sort;
pub mod strategies;
pub mod strategy_laws;
pub mod sums;
pub mod target;
pub mod text;
pub mod text_laws;
pub mod value_laws;
pub mod view_laws;
pub mod weights;

pub use crate::ancestor_totals::AncestorTotals;
pub use crate::ancestry::{AncestorToBump, Input};
pub use crate::bitset::Bitset;
pub use crate::bnb::{BnbMetric, Score};
pub use crate::bnb_iter::BnbIter;
pub use crate::bump_table::BumpTable;
pub use crate::candidate::Candidate;
pub use crate::coin_selector::{CoinSelector, CHANGE_LOWER};
pub use crate::drain::{ChangePolicy, Drain, DrainWeights};
pub use crate::errors::{InsufficientFunds, NoBnbSolution, SelectError};
pub use crate::feerate::FeeRate;
pub use crate::mempool::{Cluster, ClusterError, MempoolTx};
pub use crate::selection_problem::SelectionProblem;
pub use crate::selection_view::SelectionView;
pub use crate::strategies::SelectIter;
pub use crate::target::{Replace, Target, TargetFee, TargetOutputs};
pub use crate::weights::{
    varint_size, TR_KEYSPEND_SATISFACTION_WEIGHT, TR_KEYSPEND_TXIN_WEIGHT, TR_SPK_WEIGHT,
    TXIN_BASE_WEIGHT, TXOUT_BASE_WEIGHT, TX_FIXED_FIELD_WEIGHT,
};

verus! {

} // verus!
