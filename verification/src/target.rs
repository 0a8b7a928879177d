//! What a selection has to pay for.
use crate::drain::DrainWeights;
use crate::feerate::FeeRate;
use crate::weights;
use vstd::prelude::*;

verus! {

/// A target value to select for: the outputs to fund, the fee to pay and the heaviest transaction
/// that is allowed.
#[derive(Clone, Copy, Debug, PartialEq, Eq)]
pub struct Target {
    /// The fee constraints that must be satisfied.
    pub fee: TargetFee,
    /// The aggregate properties of the outputs to fund.
    pub outputs: TargetOutputs,
    /// The heaviest the transaction may be, where there is a limit.
    pub max_weight: Option<u64>,
}

impl Target {
    /// The total value of the outputs to fund.
    pub fn value(&self) -> (r: u64)
        ensures
            r == self.outputs.value_sum,
    {
        self.outputs.value_sum
    }
}

/// The aggregate properties of the outputs a selection funds, not counting change.
#[derive(Clone, Copy, Debug, PartialEq, Eq)]
pub struct TargetOutputs {
    /// The sum of the values of the outputs.
    pub value_sum: u64,
    /// The sum of the weights of the outputs.
    pub weight_sum: u64,
    /// The number of outputs.
    pub n_outputs: usize,
}

impl TargetOutputs {
    /// The weight of all outputs, their count included, once a drain is added to them.
    pub open spec fn weight_with_drain(self, drain: DrainWeights) -> int {
        weights::varint_bytes(self.n_outputs + drain.n_outputs) * 4 + drain.output_weight
            + self.weight_sum
    }

    /// Whether the count and the weight of the outputs with `drain` can be represented.
    pub open spec fn fits(self, drain: DrainWeights) -> bool {
        &&& self.n_outputs + drain.n_outputs <= usize::MAX
        &&& self.weight_with_drain(drain) <= u64::MAX
    }

    /// The weight of the outputs of the transaction, including the varint that counts them, where
    /// the outputs of the drain are added to the target's.
    pub fn output_weight_with_drain(&self, drain_weight: DrainWeights) -> (weight: u64)
        requires
            self.fits(drain_weight),
        ensures
            weight == self.weight_with_drain(drain_weight),
    {
        let n_outputs: usize = drain_weight.n_outputs + self.n_outputs;
        crate::weights::varint_size(n_outputs) * 4 + drain_weight.output_weight + self.weight_sum
    }

    /// The sum of the weights of `outputs`, which hold a weight and a value each.
    pub open spec fn total_weight(outputs: Seq<(u64, u64)>) -> int
        decreases outputs.len(),
    {
        if outputs.len() == 0 {
            0
        } else {
            Self::total_weight(outputs.drop_last()) + outputs.last().0
        }
    }

    /// The sum of the values of `outputs`, which hold a weight and a value each.
    pub open spec fn total_value(outputs: Seq<(u64, u64)>) -> int
        decreases outputs.len(),
    {
        if outputs.len() == 0 {
            0
        } else {
            Self::total_value(outputs.drop_last()) + outputs.last().1
        }
    }

    proof fn totals_grow(outputs: Seq<(u64, u64)>, k: int)
        requires
            0 <= k <= outputs.len(),
        ensures
            Self::total_weight(outputs.take(k)) <= Self::total_weight(outputs),
            Self::total_value(outputs.take(k)) <= Self::total_value(outputs),
        decreases outputs.len(),
    {
        if k == outputs.len() {
            assert(outputs.take(k) == outputs);
        } else {
            Self::totals_grow(outputs.drop_last(), k);
            assert(outputs.drop_last().take(k) == outputs.take(k));
        }
    }

    /// The aggregate of `outputs`, each given as its weight and its value.
    pub fn fund_outputs(outputs: &[(u64, u64)]) -> (r: Self)
        requires
            Self::total_weight(outputs@) <= u64::MAX,
            Self::total_value(outputs@) <= u64::MAX,
        ensures
            r.weight_sum == Self::total_weight(outputs@),
            r.value_sum == Self::total_value(outputs@),
            r.n_outputs == outputs@.len(),
    {
        let mut weight_sum: u64 = 0;
        let mut value_sum: u64 = 0;
        let mut i: usize = 0;
        proof {
            assert(outputs@.take(0) == Seq::<(u64, u64)>::empty());
        }
        while i < outputs.len()
            invariant
                i <= outputs@.len(),
                weight_sum == Self::total_weight(outputs@.take(i as int)),
                value_sum == Self::total_value(outputs@.take(i as int)),
                Self::total_weight(outputs@) <= u64::MAX,
                Self::total_value(outputs@) <= u64::MAX,
            decreases outputs@.len() - i,
        {
            proof {
                Self::totals_grow(outputs@, i + 1);
                assert(outputs@.take(i + 1).drop_last() == outputs@.take(i as int));
            }
            let (weight, value) = outputs[i];
            weight_sum = weight_sum + weight;
            value_sum = value_sum + value;
            i = i + 1;
        }
        proof {
            assert(outputs@.take(i as int) == outputs@);
        }
        TargetOutputs { value_sum, weight_sum, n_outputs: outputs.len() }
    }
}

/// The fee constraints of a selection.
#[derive(Clone, Copy, Debug, PartialEq, Eq)]
pub struct TargetFee {
    /// The feerate the transaction, together with the ancestors it bumps, must have.
    pub rate: FeeRate,
    /// The least total fee the transaction must pay.
    pub absolute: u64,
    /// The transactions that are replaced, where the fee has to allow for that.
    pub replace: Option<Replace>,
}

impl TargetFee {
    /// No fee constraint at all.
    pub fn zero() -> (r: Self)
        ensures
            r.rate@ == 0,
            r.absolute == 0,
            r.replace is None,
    {
        TargetFee { rate: FeeRate::zero(), absolute: 0, replace: None }
    }

    /// The constraint of a feerate alone.
    pub fn from_feerate(feerate: FeeRate) -> (r: Self)
        ensures
            r.rate == feerate,
            r.absolute == 0,
            r.replace is None,
    {
        TargetFee { rate: feerate, absolute: 0, replace: None }
    }

    /// The fee that the rules on replacing other transactions ask for at `weight`, zero where
    /// nothing is replaced.
    pub open spec fn replacement_fee(self, weight: int) -> int {
        match self.replace {
            Some(replace) => replace.min_fee(weight),
            None => 0,
        }
    }

    /// As `replacement_fee`, with the feerate applied to the weight directly.
    pub open spec fn replacement_fee_wu(self, weight: int) -> int {
        match self.replace {
            Some(replace) => replace.min_fee_wu(weight),
            None => 0,
        }
    }
}

impl Default for TargetFee {
    /// The constraint of the default minimum relay feerate.
    fn default() -> (r: Self)
        ensures
            r.rate@ == 1_000,
            r.absolute == 0,
            r.replace is None,
    {
        TargetFee { rate: FeeRate::default_min_relay_fee(), absolute: 0, replace: None }
    }
}

/// Transactions to be replaced, and what replacing them costs.
#[derive(Clone, Copy, Debug, PartialEq, Eq)]
pub struct Replace {
    /// The fee of the transactions being replaced.
    pub fee: u64,
    /// The feerate that is paid on top of that fee for the replacement itself.
    pub incremental_relay_feerate: FeeRate,
}

impl Replace {
    /// The least fee for a replacement of `weight`.
    pub open spec fn min_fee(self, weight: int) -> int {
        self.fee + self.incremental_relay_feerate.fee(weight)
    }

    /// The least fee for a replacement of `weight` when the rate is applied to the weight directly.
    pub open spec fn min_fee_wu(self, weight: int) -> int {
        self.fee + self.incremental_relay_feerate.fee_wu(weight)
    }

    /// Replace transactions that paid `fee`, at the default incremental relay feerate.
    pub fn new(fee: u64) -> (r: Self)
        ensures
            r.fee == fee,
            r.incremental_relay_feerate@ == 1_000,
    {
        Replace { fee, incremental_relay_feerate: FeeRate::default_rbf_incremental_relay() }
    }

    /// The least fee a replacement with weight `replacing_tx_weight` must pay.
    pub fn min_fee_to_do_replacement(&self, replacing_tx_weight: u64) -> (fee: u64)
        requires
            self.min_fee(replacing_tx_weight as int) <= u64::MAX,
        ensures
            fee == self.min_fee(replacing_tx_weight as int),
    {
        proof {
            self.incremental_relay_feerate.fee_wu_at_most_fee(replacing_tx_weight as int);
        }
        self.fee + self.incremental_relay_feerate.implied_fee(replacing_tx_weight)
    }

    /// The least fee a replacement with weight `replacing_tx_weight` must pay, with the feerate
    /// applied to the weight directly.
    pub fn min_fee_to_do_replacement_wu(&self, replacing_tx_weight: u64) -> (fee: u64)
        requires
            self.min_fee_wu(replacing_tx_weight as int) <= u64::MAX,
        ensures
            fee == self.min_fee_wu(replacing_tx_weight as int),
    {
        proof {
            self.incremental_relay_feerate.fee_wu_at_most_fee(replacing_tx_weight as int);
        }
        self.fee + self.incremental_relay_feerate.implied_fee_wu(replacing_tx_weight)
    }
}

} // verus!
