//! Change outputs and when to add them.
use crate::feerate;
use crate::feerate::FeeRate;
use crate::weights;
use crate::weights::{varint_size, TR_KEYSPEND_TXIN_WEIGHT, TR_SPK_WEIGHT, TXOUT_BASE_WEIGHT};
use vstd::prelude::*;

verus! {

/// The weight costs of a drain (change) output. It may also stand for several outputs.
#[derive(Debug, Clone, Copy, Hash, PartialEq, Eq, Structural)]
pub struct DrainWeights {
    /// The weight of including this drain output, not counting what it adds to the varint of the
    /// output count.
    pub output_weight: u64,
    /// The weight of spending this drain output in the future.
    pub spend_weight: u64,
    /// The number of outputs that the drain uses.
    pub n_outputs: usize,
}

impl Default for DrainWeights {
    fn default() -> (r: Self)
        ensures
            r == DrainWeights::spec_none(),
    {
        DrainWeights::none()
    }
}

impl DrainWeights {
    /// The weights of no drain at all.
    pub open spec fn spec_none() -> Self {
        DrainWeights { output_weight: 0, spend_weight: 0, n_outputs: 0 }
    }

    /// The weights of no drain at all.
    #[verifier::when_used_as_spec(spec_none)]
    pub fn none() -> (r: Self)
        ensures
            r == DrainWeights::spec_none(),
    {
        DrainWeights { output_weight: 0, spend_weight: 0, n_outputs: 0 }
    }

    /// The weights of an output that will be spent with a taproot key spend.
    pub fn tr_keyspend() -> (r: Self)
        ensures
            r.output_weight == TXOUT_BASE_WEIGHT + TR_SPK_WEIGHT,
            r.spend_weight == TR_KEYSPEND_TXIN_WEIGHT,
            r.n_outputs == 1,
    {
        DrainWeights {
            output_weight: TXOUT_BASE_WEIGHT + TR_SPK_WEIGHT,
            spend_weight: TR_KEYSPEND_TXIN_WEIGHT,
            n_outputs: 1,
        }
    }

    /// The weight this drain adds to a transaction of `n_target_outputs` other outputs, including
    /// what it adds to the varint of the output count.
    pub open spec fn added_weight(self, n_target_outputs: int) -> int {
        self.output_weight + (weights::varint_bytes(n_target_outputs + self.n_outputs)
            - weights::varint_bytes(n_target_outputs)) * 4
    }

    /// Whether the output count and the weight this drain adds can be represented.
    pub open spec fn addable(self, n_target_outputs: int) -> bool {
        &&& n_target_outputs + self.n_outputs <= usize::MAX
        &&& self.added_weight(n_target_outputs) <= u64::MAX
    }

    /// What the drain costs, 4000 times over, so that it is a whole number: `feerate` on the weight
    /// it adds and `long_term_feerate` on the weight of spending it.
    pub open spec fn scaled_waste(
        self,
        feerate: FeeRate,
        long_term_feerate: FeeRate,
        n_target_outputs: int,
    ) -> int {
        self.added_weight(n_target_outputs) * feerate@ + self.spend_weight * long_term_feerate@
    }

    /// The weight this drain adds to the transaction, including the extra varint weight from
    /// growing the output count past `n_target_outputs`.
    pub fn added_output_weight(&self, n_target_outputs: usize) -> (weight: u64)
        requires
            self.addable(n_target_outputs as int),
        ensures
            weight == self.added_weight(n_target_outputs as int),
    {
        let extra_varint_weight: u64 = (varint_size(n_target_outputs + self.n_outputs)
            - varint_size(n_target_outputs)) * 4;
        self.output_weight + extra_varint_weight
    }

    /// The waste of adding this drain to a transaction, rounded down.
    ///
    /// The real cost rounds each fee up, so this never overstates it.
    pub fn waste_floor(
        &self,
        feerate: FeeRate,
        long_term_feerate: FeeRate,
        n_target_outputs: usize,
    ) -> (waste: u64)
        requires
            self.addable(n_target_outputs as int),
            self.scaled_waste(feerate, long_term_feerate, n_target_outputs as int) <= u128::MAX,
        ensures
            waste == (self.scaled_waste(feerate, long_term_feerate, n_target_outputs as int)
                / 4000) as u64,
    {
        let added: u64 = self.added_output_weight(n_target_outputs);
        proof {
            assert(0 <= added * feerate@) by (nonlinear_arith)
                requires
                    0 <= added,
                    0 <= feerate@,
            ;
            let spend = self.spend_weight;
            assert(0 <= spend * long_term_feerate@) by (nonlinear_arith)
                requires
                    0 <= spend,
                    0 <= long_term_feerate@,
            ;
        }
        let scaled: u128 = added as u128 * feerate.sat_per_kvb() as u128 + self.spend_weight as u128
            * long_term_feerate.sat_per_kvb() as u128;
        (scaled / crate::feerate::WU_PER_KVB) as u64
    }

    /// The satoshis it costs to add this drain and to spend it, each fee rounded up.
    pub open spec fn rounded_waste(
        self,
        feerate: FeeRate,
        long_term_feerate: FeeRate,
        n_target_outputs: int,
    ) -> int {
        feerate::saturated(feerate.fee_wu(self.added_weight(n_target_outputs))) + self.future_fee(
            long_term_feerate,
        )
    }

    /// The fee of spending the drain in the future.
    pub open spec fn future_fee(self, long_term_feerate: FeeRate) -> u64 {
        feerate::saturated(long_term_feerate.fee_wu(self.spend_weight as int))
    }

    /// The satoshis it costs to add this drain, rounding each fee up.
    pub fn waste_ceil(
        &self,
        feerate: FeeRate,
        long_term_feerate: FeeRate,
        n_target_outputs: usize,
    ) -> (waste: u64)
        requires
            self.addable(n_target_outputs as int),
            self.rounded_waste(feerate, long_term_feerate, n_target_outputs as int) <= u64::MAX,
        ensures
            waste == self.rounded_waste(feerate, long_term_feerate, n_target_outputs as int),
    {
        feerate.implied_fee_wu(self.added_output_weight(n_target_outputs)) + self.spend_fee(
            long_term_feerate,
        )
    }

    /// The fee paid to spend these change outputs in the future.
    pub fn spend_fee(&self, long_term_feerate: FeeRate) -> (fee: u64)
        ensures
            fee == self.future_fee(long_term_feerate),
    {
        long_term_feerate.implied_fee_wu(self.spend_weight)
    }

    /// The least value a change output with these weights has without being dust at
    /// `dust_relay_feerate`: the fee of relaying it and of spending it later.
    pub fn dust_threshold(&self, dust_relay_feerate: FeeRate) -> (value: u64)
        requires
            self.output_weight + self.spend_weight <= u64::MAX,
        ensures
            value == feerate::saturated(
                dust_relay_feerate.fee_wu(self.output_weight + self.spend_weight),
            ),
    {
        dust_relay_feerate.implied_fee_wu(self.output_weight + self.spend_weight)
    }

    /// Flooring the waste of a drain never overstates it: it is at most the sum of the two fees
    /// rounded up, and falls short of it by at most two satoshis.
    pub proof fn waste_floor_at_most_waste_ceil(
        self,
        feerate: FeeRate,
        long_term_feerate: FeeRate,
        n_target_outputs: int,
    )
        ensures
            self.scaled_waste(feerate, long_term_feerate, n_target_outputs) / 4000
                <= feerate.fee_wu(self.added_weight(n_target_outputs)) + long_term_feerate.fee_wu(
                self.spend_weight as int,
            ) < self.scaled_waste(feerate, long_term_feerate, n_target_outputs) / 4000 + 3,
    {
    }
}

/// A drain (change) output. It could stand for several outputs.
///
/// A drain for which [`is_none`](Self::is_none) holds means that **no change is added** to the
/// transaction.
#[derive(Clone, Copy, Debug, PartialEq, Eq, Hash, Structural)]
pub struct Drain {
    /// Weight of adding the drain output and of spending it.
    pub weights: DrainWeights,
    /// The value that is assigned to the drain.
    pub value: u64,
}

impl Default for Drain {
    fn default() -> (r: Self)
        ensures
            r == Drain::spec_none(),
    {
        Drain::none()
    }
}

impl Drain {
    /// The drain that stands for no drain at all.
    pub open spec fn spec_none() -> Self {
        Drain { weights: DrainWeights::spec_none(), value: 0 }
    }

    /// The drain that stands for no drain at all: all its values are zero.
    #[verifier::when_used_as_spec(spec_none)]
    pub fn none() -> (r: Self)
        ensures
            r == Drain::spec_none(),
    {
        Drain { weights: DrainWeights::none(), value: 0 }
    }

    /// Whether this is the drain that stands for none.
    pub fn is_none(&self) -> (r: bool)
        ensures
            r == (*self == Drain::spec_none()),
    {
        *self == Drain::none()
    }

    /// Whether this is not the drain that stands for none.
    pub fn is_some(&self) -> (r: bool)
        ensures
            r == (*self != Drain::spec_none()),
    {
        !self.is_none()
    }
}

/// Describes when a change output should be added that drains the excess of a selection, with the
/// weights of what is added.
#[derive(Clone, Copy, Debug, PartialEq)]
pub struct ChangePolicy {
    /// The least excess that warrants a change output.
    pub min_value: u64,
    /// The weights of the drain that would be added.
    pub drain_weights: DrainWeights,
}

impl ChangePolicy {
    /// The policy that creates change when its value is greater than `min_value`.
    pub fn min_value(drain_weights: DrainWeights, min_value: u64) -> (r: Self)
        ensures
            r.min_value == min_value,
            r.drain_weights == drain_weights,
    {
        ChangePolicy { drain_weights, min_value }
    }

    /// The policy that creates change when that reduces the waste of the transaction and its value
    /// is greater than `min_value`. What the drain adds to the varint of the output count is
    /// ignored.
    pub fn min_value_and_waste(
        drain_weights: DrainWeights,
        min_value: u64,
        target_feerate: FeeRate,
        long_term_feerate: FeeRate,
    ) -> (r: Self)
        requires
            drain_weights.addable(0),
            drain_weights.rounded_waste(target_feerate, long_term_feerate, 0) <= u64::MAX,
        ensures
            r.drain_weights == drain_weights,
            r.min_value == ({
                let waste = drain_weights.rounded_waste(target_feerate, long_term_feerate, 0);
                if waste > min_value {
                    waste
                } else {
                    min_value as int
                }
            }),
    {
        // The output waste of a changeless solution is the excess.
        let waste_with_change: u64 = drain_weights.waste_ceil(target_feerate, long_term_feerate, 0);
        ChangePolicy {
            drain_weights,
            min_value: if waste_with_change > min_value {
                waste_with_change
            } else {
                min_value
            },
        }
    }
}

} // verus!
