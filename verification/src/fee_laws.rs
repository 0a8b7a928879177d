//! What fees, weights, drains and candidates are worth, stated over the numbers that they are made of.
use crate::candidate::Candidate;
use crate::drain::DrainWeights;
use crate::feerate;
use crate::feerate::FeeRate;
use crate::model::ProblemView;
use crate::target::{Replace, TargetFee, TargetOutputs};
use crate::weights;
use vstd::prelude::*;

verus! {

/// Whether `vbytes` is the least number of virtual bytes that holds `weight`.
pub open spec fn fills(vbytes: int, weight: int) -> bool {
    4 * (vbytes - 1) < weight <= 4 * vbytes
}

/// An amount that can be represented is kept, and a larger one is cut off at the largest that can.
pub proof fn saturated_keeps(n: int)
    requires
        0 <= n,
    ensures
        n <= u64::MAX ==> feerate::saturated(n) == n,
        n > u64::MAX ==> feerate::saturated(n) == u64::MAX,
{
}

/// A quotient that is rounded up is the least whole number that is not below it.
pub proof fn ceil_is_least(n: int, d: int, q: int)
    requires
        0 < d,
    ensures
        q >= feerate::ceil(n, d) <==> q * d >= n,
{
    let c = feerate::ceil(n, d);
    assert(c * d <= n + (d - 1) < (c + 1) * d) by (nonlinear_arith)
        requires
            0 < d,
            c == (n + (d - 1)) / d,
    ;
    assert((c + 1) * d == c * d + d && (c - 1) * d == c * d - d) by (nonlinear_arith);
    if q >= c {
        assert(q * d >= c * d) by (nonlinear_arith)
            requires
                q >= c,
                0 < d,
        ;
    } else {
        assert(q * d <= (c - 1) * d) by (nonlinear_arith)
            requires
                q <= c - 1,
                0 < d,
        ;
    }
}

impl FeeRate {
    /// A fee is the least that pays the rate: for each weight unit, or for each of the virtual
    /// bytes that the weight takes up.
    pub proof fn fee_is_least(self, weight: int, vbytes: int, paid: int)
        requires
            fills(vbytes, weight),
        ensures
            paid >= self.fee_wu(weight) <==> paid * 4000 >= weight * self@,
            paid >= self.fee(weight) <==> paid * 1000 >= vbytes * self@,
    {
        ceil_is_least(weight, 4, vbytes);
        ceil_is_least(weight, 4, vbytes - 1);
        assert(feerate::ceil(weight, 4) == vbytes);
        ceil_is_least(vbytes * self@, 1000, paid);
        ceil_is_least(weight * self@, 4000, paid);
    }

    /// Every weight takes up a number of virtual bytes.
    pub proof fn weight_fills_vbytes(weight: int) -> (vbytes: int)
        ensures
            fills(vbytes, weight),
    {
        (weight + 3) / 4
    }

    /// A fee of whole satoshis per virtual byte is that many satoshis for each.
    pub proof fn whole_rates_need_no_rounding(self, per_vbyte: int, weight: int, vbytes: int)
        requires
            self@ == 1000 * per_vbyte,
            fills(vbytes, weight),
        ensures
            self.fee(weight) == per_vbyte * vbytes,
    {
        let due = per_vbyte * vbytes;
        assert(due * 1000 == vbytes * self@ && (due - 1) * 1000 == vbytes * self@ - 1000)
            by (nonlinear_arith)
            requires
                self@ == 1000 * per_vbyte,
                due == per_vbyte * vbytes,
        ;
        self.fee_is_least(weight, vbytes, due);
        self.fee_is_least(weight, vbytes, due - 1);
    }
}

/// A count takes one byte up to 0xfc, and otherwise one byte and the least of two, four and eight
/// that hold it.
pub proof fn varint_is_shortest(v: int)
    requires
        0 <= v <= u64::MAX,
    ensures
        v <= 0xfc ==> weights::varint_bytes(v) == 1,
        0xfc < v < 0x1_0000 ==> weights::varint_bytes(v) == 1 + 2,
        0x1_0000 <= v < 0x1_0000_0000 ==> weights::varint_bytes(v) == 1 + 4,
        0x1_0000_0000 <= v ==> weights::varint_bytes(v) == 1 + 8,
{
}

/// What the parts of a transaction weigh: four weight units for each byte that is no witness, and
/// one for each that is.
pub proof fn parts_weigh_their_bytes()
    ensures
        weights::TX_FIXED_FIELD_WEIGHT == 4 * (4 + 4),
        weights::TXIN_BASE_WEIGHT == 4 * (32 + 4 + 1 + 4),
        weights::TXOUT_BASE_WEIGHT == 4 * (8 + 1),
        weights::TR_SPK_WEIGHT == 4 * (1 + 1 + 32),
        weights::TR_KEYSPEND_SATISFACTION_WEIGHT == 1 + 1 + 64,
        weights::TR_KEYSPEND_TXIN_WEIGHT == 4 * (32 + 4 + 1 + 4) + 1 + 1 + 64,
{
}

impl TargetOutputs {
    /// Outputs weigh and are worth what their parts are, and one output what it says.
    pub proof fn outputs_add_up(a: Seq<(u64, u64)>, b: Seq<(u64, u64)>)
        ensures
            Self::total_weight(a + b) == Self::total_weight(a) + Self::total_weight(b),
            Self::total_value(a + b) == Self::total_value(a) + Self::total_value(b),
            a.len() == 1 ==> Self::total_weight(a) == a[0].0 && Self::total_value(a) == a[0].1,
        decreases a.len() + b.len(),
    {
        if b.len() == 0 {
            assert(a + b =~= a);
            if a.len() == 1 {
                assert(a.drop_last() =~= Seq::<(u64, u64)>::empty());
                reveal_with_fuel(TargetOutputs::total_weight, 2);
                reveal_with_fuel(TargetOutputs::total_value, 2);
            }
        } else {
            Self::outputs_add_up(a, b.drop_last());
            assert((a + b).drop_last() =~= a + b.drop_last());
            assert((a + b).last() == b.last());
        }
    }

    /// The outputs weigh what they do, with the bytes that count them and the change.
    pub proof fn outputs_weigh(self, drain: DrainWeights)
        ensures
            self.weight_with_drain(drain) == self.weight_sum + drain.output_weight + 4
                * weights::varint_bytes(self.n_outputs + drain.n_outputs),
    {
    }
}

impl Replace {
    /// A replacement pays what it replaces, and its own feerate on its own weight.
    pub proof fn replacing_pays_twice(self, weight: int, vbytes: int, paid: int)
        requires
            fills(vbytes, weight),
        ensures
            paid >= self.min_fee(weight) <==> (paid - self.fee) * 1000 >= vbytes
                * self.incremental_relay_feerate@,
            paid >= self.min_fee_wu(weight) <==> (paid - self.fee) * 4000 >= weight
                * self.incremental_relay_feerate@,
    {
        self.incremental_relay_feerate.fee_is_least(weight, vbytes, paid - self.fee);
    }
}

impl TargetFee {
    /// What a replacement asks is asked only where something is replaced.
    pub proof fn only_replacements_ask(self, weight: int)
        ensures
            match self.replace {
                Some(replace) => {
                    &&& self.replacement_fee(weight) == replace.min_fee(weight)
                    &&& self.replacement_fee_wu(weight) == replace.min_fee_wu(weight)
                },
                None => self.replacement_fee(weight) == 0 && self.replacement_fee_wu(weight) == 0,
            },
    {
    }
}

impl DrainWeights {
    /// A drain adds to every transaction the weight that it is said to add.
    pub proof fn drain_adds_its_weight(self, p: ProblemView, s: Seq<bool>)
        ensures
            p.tx_weight(s, self) - p.tx_weight(s, DrainWeights::spec_none()) == self.added_weight(
                p.target.outputs.n_outputs as int,
            ),
            self.added_weight(p.target.outputs.n_outputs as int) == self.output_weight + 4 * (
            weights::varint_bytes(p.target.outputs.n_outputs + self.n_outputs)
                - weights::varint_bytes(p.target.outputs.n_outputs as int)),
    {
    }

    /// What spending the change will cost is the least that pays the long-term feerate for it.
    pub proof fn future_fee_is_least(self, long_term_feerate: FeeRate, paid: int)
        requires
            self.spend_weight * long_term_feerate@ <= 4000 * u64::MAX,
        ensures
            paid >= self.future_fee(long_term_feerate) <==> paid * 4000 >= self.spend_weight
                * long_term_feerate@,
    {
        let weight = self.spend_weight as int;
        let vbytes = FeeRate::weight_fills_vbytes(weight);
        long_term_feerate.fee_is_least(weight, vbytes, paid);
        long_term_feerate.fee_is_least(weight, vbytes, u64::MAX as int);
        long_term_feerate.fee_wu_at_most_fee(weight);
        saturated_keeps(long_term_feerate.fee_wu(weight));
    }

    /// Change costs the fee on the weight that it adds to the transaction and the fee on the weight
    /// of spending it later, each at its own feerate: both are always counted, whichever feerate is
    /// higher.
    pub proof fn waste_counts_adding_and_spending(
        self,
        feerate: FeeRate,
        long_term_feerate: FeeRate,
        p: ProblemView,
        s: Seq<bool>,
    )
        requires
            feerate.fee_wu(self.added_weight(p.target.outputs.n_outputs as int)) <= u64::MAX,
            long_term_feerate.fee_wu(self.spend_weight as int) <= u64::MAX,
        ensures
            ({
                let added = p.tx_weight(s, self) - p.tx_weight(s, DrainWeights::spec_none());
                let exact = added * feerate@ + self.spend_weight * long_term_feerate@;
                let n = p.target.outputs.n_outputs as int;
                let waste = self.rounded_waste(feerate, long_term_feerate, n);
                &&& waste == feerate.fee_wu(added) + long_term_feerate.fee_wu(
                    self.spend_weight as int,
                )
                &&& exact <= 4000 * waste < exact + 2 * 4000
                &&& self.scaled_waste(feerate, long_term_feerate, n) == exact
            }),
    {
        let added = self.added_weight(p.target.outputs.n_outputs as int);
        let spend = self.spend_weight as int;
        let (v, w) = (FeeRate::weight_fills_vbytes(added), FeeRate::weight_fills_vbytes(spend));
        assert(weights::varint_bytes(p.target.outputs.n_outputs + self.n_outputs)
            >= weights::varint_bytes(p.target.outputs.n_outputs as int));
        feerate.fee_wu_at_most_fee(added);
        long_term_feerate.fee_wu_at_most_fee(spend);
        let (x, y) = (feerate.fee_wu(added), long_term_feerate.fee_wu(spend));
        feerate.fee_is_least(added, v, x);
        feerate.fee_is_least(added, v, x - 1);
        long_term_feerate.fee_is_least(spend, w, y);
        long_term_feerate.fee_is_least(spend, w, y - 1);
    }
}

impl Candidate {
    /// A candidate is worth selecting if it is worth more than its weight costs: more than the fee
    /// on it suffices, less never does, and the fee itself does if it was rounded up.
    pub proof fn effective_is_worth_its_fee(self, feerate: FeeRate)
        ensures
            self.value > feerate.fee_wu(self.weight as int) ==> self.effective_at(feerate),
            self.value < feerate.fee_wu(self.weight as int) ==> !self.effective_at(feerate),
            self.value == feerate.fee_wu(self.weight as int) ==> (self.effective_at(feerate) <==> (
            self.weight * feerate@) % 4000 != 0),
    {
        let w = self.weight as int;
        let vbytes = FeeRate::weight_fills_vbytes(w);
        feerate.fee_is_least(w, vbytes, self.value as int);
        feerate.fee_is_least(w, vbytes, self.value - 1);
        if self.value == feerate.fee_wu(w) && (self.weight * feerate@) % 4000 != 0 {
            assert(self.value * 4000 != w * feerate@);
        }
    }

    /// Candidates come by value per weight unit, weightless ones first, and among those that hold
    /// the same per weight unit the more valuable one does.
    pub proof fn ranked_by_value_per_weight(a: Candidate, b: Candidate)
        ensures
            a.weight == 0 && b.weight > 0 ==> Self::ranks_before(a, b),
            a.weight > 0 && b.weight == 0 ==> !Self::ranks_before(a, b),
            a.weight == 0 && b.weight == 0 ==> (Self::ranks_before(a, b) <==> a.value > b.value),
            a.weight > 0 && b.weight > 0 && a.value * b.weight > b.value * a.weight
                ==> Self::ranks_before(a, b) && !Self::ranks_before(b, a),
            a.weight > 0 && b.weight > 0 && a.value * b.weight == b.value * a.weight ==> (
            Self::ranks_before(a, b) <==> a.value > b.value),
            a.weight > 0 && b.weight > 0 ==> (Self::denser(a, b) <==> a.value * b.weight > b.value
                * a.weight),
            a.weight == 0 || b.weight == 0 ==> (Self::denser(a, b) <==> a.weight < b.weight),
    {
    }
}

} // verus!
