//! Paying the lowest fee without change.
use crate::bnb::{BnbMetric, MetricModel, Score};
use crate::drain::{Drain, DrainWeights};
use crate::feerate;
use crate::feerate::FeeRate;
use crate::metrics::lowest_fee;
use crate::metrics::lowest_fee::LowestFee;
use crate::model;
use crate::model::{ProblemView, SelectionState};
use crate::selection_problem::SelectionProblem;
use crate::selection_view::SelectionView;
use crate::target::Target;
use crate::weights;
use crate::weights::varint_size;
use vstd::prelude::*;

verus! {

/// Metric that minimizes fees over the selections for which [`LowestFee`] chooses no change.
///
/// The decision on change is that of [`LowestFee`]: there is none where change costs more than it
/// recovers, where it is dust, and where it is too heavy.
///
/// The score of a changeless selection is what it is worth beyond the target. That only grows as
/// candidates are added, so the current one bounds all below, whatever the ancestors do. The bound
/// combines this with the bound of [`LowestFee`] for at most 24 candidates. With more, it takes the
/// latter alone, because the former starves useful branches when rounds are limited.
#[derive(Clone, Copy, Debug)]
pub struct LowestFeeChangeless {
    /// The estimated feerate needed to spend a potential change output later.
    pub long_term_feerate: FeeRate,
    /// The feerate that determines the dust threshold of a potential change output.
    pub dust_relay_feerate: FeeRate,
    /// The weights of the potential change output.
    pub drain_weights: DrainWeights,
}

/// The weight that the serialization of the inputs gains at most beyond the candidates' own weight:
/// the varint at its largest, the witness header, and one unit for each candidate in case it is a
/// legacy input.
pub open spec fn future_overhead(p: ProblemView) -> int {
    weights::varint_bytes(p.n()) * 4 + 2 + p.n()
}

/// The weight that the serialization of the inputs gains at most, however a selection is extended.
fn max_future_input_overhead(problem: &SelectionProblem) -> (weight: u64)
    requires
        problem@.n() <= u64::MAX - 38,
    ensures
        weight == future_overhead(problem@),
{
    varint_size(problem.len()) * 4 + 2 + problem.len() as u64
}

impl LowestFeeChangeless {
    /// The metric that decides on change.
    pub open spec fn spec_lowest_fee(self) -> LowestFee {
        LowestFee {
            long_term_feerate: self.long_term_feerate,
            dust_relay_feerate: self.dust_relay_feerate,
            drain_weights: self.drain_weights,
        }
    }

    /// The metric that decides on change.
    fn lowest_fee(self) -> (r: LowestFee)
        ensures
            r == self.spec_lowest_fee(),
    {
        LowestFee {
            long_term_feerate: self.long_term_feerate,
            dust_relay_feerate: self.dust_relay_feerate,
            drain_weights: self.drain_weights,
        }
    }

    /// Whether every amount that the metric computes for `p` can be represented.
    pub open spec fn accepts(self, p: ProblemView) -> bool {
        &&& self.spec_lowest_fee().accepts(p)
        &&& p.n() <= u64::MAX - 38
    }

    /// Whether every amount that the metric computes for a problem can be represented.
    pub fn can_measure(&self, problem: &SelectionProblem) -> (r: bool)
        requires
            problem@.sums_fit(),
        ensures
            r == self.accepts(problem@),
    {
        problem.len() as u64 <= u64::MAX - 38 && self.lowest_fee().can_measure(problem)
    }

    /// The largest excess, after paying for change, that a selection has without change: what
    /// spending the change costs, or just less than dust.
    pub open spec fn excess_ceiling(self) -> int {
        let dust = feerate::saturated(
            self.dust_relay_feerate.fee_wu(
                self.drain_weights.output_weight + self.drain_weights.spend_weight,
            ),
        );
        model::max(
            self.drain_weights.future_fee(self.long_term_feerate) as int,
            model::max(dust - 1, 0),
        )
    }

    /// The score of a selection: its fee, if it covers the target, is not too heavy and has no
    /// change.
    pub open spec fn score_of(self, p: ProblemView, s: Seq<bool>) -> Option<Score> {
        if p.funded(s, Drain::spec_none()) && p.within_max_weight(s, DrainWeights::spec_none())
            && self.spec_lowest_fee().change_value(p, s) is None {
            Some(p.fee_paid(s, 0) as Score)
        } else {
            None
        }
    }

    /// Whether the excess is too large to be without change, and stays so however the selection is
    /// extended: no ancestor can be dragged in, there is no weight limit that could forbid change,
    /// and every candidate left pays for itself. Where no candidate is left, there is nothing to
    /// cut off.
    pub open spec fn overshot(self, state: SelectionState) -> bool {
        let p = state.problem;
        &&& state.unselected().len() > 0
        &&& state.all_worth_selecting()
        &&& !lowest_fee::has_ancestors(p)
        &&& p.target.max_weight is None
        &&& p.excess(state.selected, self.spec_lowest_fee().empty_drain()) > self.excess_ceiling()
            + feerate::saturated(p.target.fee.rate.fee_wu(future_overhead(p)))
    }

    /// The bound of a state.
    pub open spec fn bound_of(self, state: SelectionState) -> Option<Score> {
        let p = state.problem;
        if self.overshot(state) {
            None
        } else {
            match self.spec_lowest_fee().bound_of(state) {
                None => None,
                Some(bound) => if p.n() > 24 {
                    Some(bound)
                } else {
                    Some(model::max(bound as int, model::max(p.fee_paid(state.selected, 0), 0)) as Score)
                },
            }
        }
    }

    /// What the metric computes.
    pub open spec fn metric_model(self) -> MetricModel {
        MetricModel {
            score: |p: ProblemView, s: Seq<bool>| self.score_of(p, s),
            bound: |state: SelectionState| self.bound_of(state),
            drain: |p: ProblemView, s: Seq<bool>| Drain::spec_none(),
            accepts: |p: ProblemView| self.accepts(p),
        }
    }

    /// The largest excess that a selection can carry and still be changeless.
    fn changeless_excess_ceiling(&self) -> (ceiling: u64)
        requires
            self.drain_weights.output_weight + self.drain_weights.spend_weight <= u64::MAX,
        ensures
            ceiling == self.excess_ceiling(),
    {
        let spend_cost: u64 = self.drain_weights.spend_fee(self.long_term_feerate);
        let dust_threshold: u64 = self.drain_weights.dust_threshold(self.dust_relay_feerate);
        let below_dust: u64 = dust_threshold.saturating_sub(1);
        if spend_cost >= below_dust {
            spend_cost
        } else {
            below_dust
        }
    }

    /// Whether this selection has overshot that ceiling with no way back.
    fn overshot_the_changeless_window(&self, cs: &SelectionView<'_>) -> (r: bool)
        requires
            cs.inv(),
            cs.is_current(),
            self.accepts(cs@.problem),
        ensures
            r == self.overshot(cs@),
    {
        let target: Target = cs.target();
        if cs.selector().is_exhausted() || !cs.every_undecided_candidate_is_worth_selecting()
            || cs.problem().has_ancestors() || target.max_weight.is_some() {
            return false;
        }
        let excess: i64 = cs.excess(Drain { weights: self.drain_weights, value: 0 });
        let ceiling: i128 = self.changeless_excess_ceiling() as i128
            + target.fee.rate.implied_fee_wu(max_future_input_overhead(cs.problem())) as i128;
        excess as i128 > ceiling
    }

    /// What the selection is worth beyond the target.
    fn no_change_fee(cs: &SelectionView<'_>) -> (fee: u64)
        requires
            cs.inv(),
        ensures
            fee == model::max(cs@.problem.fee_paid(cs@.selected, 0), 0),
    {
        cs.selected_value().saturating_sub(cs.target().value())
    }
}

impl vstd::std_specs::convert::FromSpecImpl<LowestFee> for LowestFeeChangeless {
    open spec fn obeys_from_spec() -> bool {
        true
    }

    open spec fn from_spec(metric: LowestFee) -> LowestFeeChangeless {
        LowestFeeChangeless {
            long_term_feerate: metric.long_term_feerate,
            dust_relay_feerate: metric.dust_relay_feerate,
            drain_weights: metric.drain_weights,
        }
    }
}

impl From<LowestFee> for LowestFeeChangeless {
    fn from(metric: LowestFee) -> (r: LowestFeeChangeless) {
        LowestFeeChangeless {
            long_term_feerate: metric.long_term_feerate,
            dust_relay_feerate: metric.dust_relay_feerate,
            drain_weights: metric.drain_weights,
        }
    }
}

impl BnbMetric for LowestFeeChangeless {
    open spec fn model(&self) -> MetricModel {
        self.metric_model()
    }

    fn drain(&mut self, _cs: &SelectionView<'_>) -> (r: Drain)
        ensures
            *final(self) == *old(self),
    {
        Drain::none()
    }

    fn score(&mut self, cs: &SelectionView<'_>) -> (r: Option<Score>)
        ensures
            *final(self) == *old(self),
    {
        if !cs.is_funded() || !cs.is_within_max_weight(DrainWeights::none())
            || self.lowest_fee().drain_value(cs).is_some() {
            return None;
        }
        proof {
            cs.inv_wf();
            cs@.problem.fees_bounded(cs@.selected, DrainWeights::spec_none());
        }
        Some(Self::no_change_fee(cs) as i128)
    }

    fn bound(&mut self, cs: &SelectionView<'_>) -> (r: Option<Score>)
        ensures
            *final(self) == *old(self),
    {
        if self.overshot_the_changeless_window(cs) {
            return None;
        }
        let mut lowest_fee: LowestFee = self.lowest_fee();
        let funding_bound: Score = match lowest_fee.bound(cs) {
            Some(bound) => bound,
            None => {
                return None;
            },
        };
        if cs.problem().len() > 24 {
            return Some(funding_bound);
        }
        let no_change_fee: Score = Self::no_change_fee(cs) as i128;
        if funding_bound >= no_change_fee {
            Some(funding_bound)
        } else {
            Some(no_change_fee)
        }
    }

    fn requires_ordering_by_descending_value_pwu(&self) -> (r: bool)
        ensures
            r,
    {
        true
    }
}

} // verus!
