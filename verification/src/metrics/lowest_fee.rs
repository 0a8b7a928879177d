//! Paying the lowest fee, now and when the change is spent.
use crate::bnb::{BnbMetric, MetricModel, Score};
use crate::candidate::Candidate;
use crate::drain::{Drain, DrainWeights};
use crate::feerate;
use crate::feerate::FeeRate;
use crate::model;
use crate::model::{ProblemView, SelectionState};
use crate::ratio;
use crate::ratio::{mul_div, mul_div_exceeds};
use crate::selection_problem::SelectionProblem;
use crate::selection_view::SelectionView;
use crate::target::Target;
use crate::weights;
use vstd::prelude::*;

verus! {

/// Metric that minimizes transaction fees, including the future fee for spending the change output.
///
/// The fee is what the inputs are worth beyond the outputs. To it the cost of spending the change
/// output at the long-term feerate is added, if there is change.
///
/// The metric decides by itself whether a selection has change: it does whenever that lowers the
/// long-term fee and the change is worth more than the dust threshold at `dust_relay_feerate`.
///
/// With unconfirmed ancestors the fee includes the bump of those that a selection drags in. Funding
/// is not monotone then, so the bound never claims that nothing below a node is valid for lack of
/// funds.
#[derive(Clone, Copy, Debug)]
pub struct LowestFee {
    /// The estimated feerate needed to spend the change output later.
    pub long_term_feerate: FeeRate,
    /// The feerate that determines the dust threshold of the change output.
    pub dust_relay_feerate: FeeRate,
    /// The weights of the change output that would be added.
    pub drain_weights: DrainWeights,
}

/// Whether some candidate drags in an ancestor.
pub open spec fn has_ancestors(p: ProblemView) -> bool {
    p.has_private() || p.has_shared()
}

/// Whether undecided candidate `c` holds the most value per weight unit of all that weigh
/// something.
pub open spec fn is_densest(state: SelectionState, c: int) -> bool {
    let candidates = state.problem.candidates;
    &&& 0 <= c < state.problem.n()
    &&& state.undecided(c)
    &&& candidates[c].weight > 0
    &&& forall|d: int|
        0 <= d < state.problem.n() && #[trigger] state.undecided(d) && candidates[d].weight > 0
            ==> candidates[d].value * candidates[c].weight <= candidates[c].value
            * candidates[d].weight
}

/// The most value per weight unit among the undecided candidates that weigh something, as a value
/// and a weight; nothing per weight unit where there is none.
pub open spec fn densest(state: SelectionState) -> (int, int) {
    if exists|c: int| is_densest(state, c) {
        let c = choose|c: int| is_densest(state, c);
        (state.problem.candidates[c].value as int, state.problem.candidates[c].weight as int)
    } else {
        (0, 1)
    }
}

/// The least weight that closes a deficit, rounded down, where `weight` gains `gain`. Nothing is
/// claimed where there is no gain.
pub open spec fn weight_for(deficit: int, weight: int, gain: int) -> int {
    if deficit > 0 && gain > 0 {
        (deficit * weight) / gain
    } else {
        0
    }
}

/// By which part of a candidate that gains `gain / unit` a deficit is closed, as a fraction. `None`
/// where it gains nothing.
pub open spec fn scale_for(deficit: int, gain: int, unit: int) -> Option<(int, int)> {
    if deficit <= 0 {
        Some((0, 1))
    } else if gain > 0 {
        Some((deficit * unit, gain))
    } else {
        None
    }
}

impl LowestFee {
    /// The change output before its value is decided.
    pub open spec fn empty_drain(self) -> Drain {
        Drain { weights: self.drain_weights, value: 0 }
    }

    /// Whether every amount that the metric computes for `p` can be represented.
    pub open spec fn accepts(self, p: ProblemView) -> bool {
        &&& p.fits(self.empty_drain())
        &&& p.fits(Drain::spec_none())
        &&& self.drain_weights.output_weight + self.drain_weights.spend_weight <= u64::MAX
        &&& self.drain_weights.scaled_waste(
            p.target.fee.rate,
            self.long_term_feerate,
            p.target.outputs.n_outputs as int,
        ) <= 4000 * u64::MAX
    }

    /// The value of the change output, or `None` if the selection should have none: the excess that
    /// is left once the change pays for its own weight, if that is more than spending it will cost,
    /// no dust, and the transaction is not too heavy with it.
    pub open spec fn change_value(self, p: ProblemView, s: Seq<bool>) -> Option<int> {
        let excess = p.excess(s, self.empty_drain());
        let dust = feerate::saturated(
            self.dust_relay_feerate.fee_wu(
                self.drain_weights.output_weight + self.drain_weights.spend_weight,
            ),
        );
        if excess > self.drain_weights.future_fee(self.long_term_feerate) && excess >= dust
            && p.within_max_weight(s, self.drain_weights) {
            Some(excess)
        } else {
            None
        }
    }

    /// The change output of a selection.
    pub open spec fn drain_of(self, p: ProblemView, s: Seq<bool>) -> Drain {
        match self.change_value(p, s) {
            Some(value) => Drain { weights: self.drain_weights, value: value as u64 },
            None => Drain::spec_none(),
        }
    }

    /// The fee of a selection with its change, and of spending that change.
    pub open spec fn long_term_fee(self, p: ProblemView, s: Seq<bool>) -> int {
        let drain = self.drain_of(p, s);
        p.fee_paid(s, drain.value as int) + drain.weights.future_fee(self.long_term_feerate)
    }

    /// The score of a selection: its long-term fee, if it covers the target and is not too heavy.
    pub open spec fn score_of(self, p: ProblemView, s: Seq<bool>) -> Option<Score> {
        if p.funded(s, Drain::spec_none()) && p.within_max_weight(s, self.drain_of(p, s).weights) {
            Some(self.long_term_fee(p, s) as Score)
        } else {
            None
        }
    }

    /// Whether change and at least one more input fit under the weight limit.
    pub open spec fn change_reachable(self, state: SelectionState) -> bool {
        match state.problem.target.max_weight {
            None => true,
            Some(max_weight) => exists|c: int|
                0 <= c < state.problem.n() && #[trigger] state.undecided(c)
                    && state.problem.tx_weight(state.selected, self.drain_weights)
                    + state.problem.candidates[c].weight <= max_weight,
        }
    }

    /// What change costs, rounded down.
    pub open spec fn change_cost(self, p: ProblemView) -> int {
        self.drain_weights.scaled_waste(
            p.target.fee.rate,
            self.long_term_feerate,
            p.target.outputs.n_outputs as int,
        ) / 4000
    }

    /// The bound of a selection that covers the target, where nothing drags in ancestors: its
    /// long-term fee, or what change could save of it.
    pub open spec fn funded_bound(self, state: SelectionState) -> int {
        let p = state.problem;
        let fee = self.long_term_fee(p, state.selected);
        if self.change_value(p, state.selected) is None && self.change_reachable(state) {
            model::min(
                fee,
                fee - p.excess(state.selected, Drain::spec_none()) + self.change_cost(p),
            )
        } else {
            fee
        }
    }

    /// The bound of a selection that covers the target, where ancestors can be dragged in: as
    /// `funded_bound`, less what the bump could still fall, but no less than the fee floor.
    pub open spec fn funded_bound_with_ancestors(self, state: SelectionState) -> int {
        let p = state.problem;
        let fall = model::max(
            p.bump(state.selected) - p.bump_lower_bound(state.selected, state.reachable()),
            0,
        );
        let fee = model::max(self.long_term_fee(p, state.selected) - fall, 0);
        let bound = if self.change_value(p, state.selected) is None && self.change_reachable(
            state,
        ) {
            model::min(
                fee,
                model::max(fee - p.excess(state.selected, Drain::spec_none()), 0)
                    + self.change_cost(p),
            )
        } else {
            fee
        };
        model::max(bound, state.fee_floor())
    }

    /// The least weight that any selection extending this one adds before it covers the target:
    /// each fee constraint by itself, closed by the candidate with the most value per weight unit
    /// without limit.
    pub open spec fn added_weight(self, state: SelectionState) -> int {
        let p = state.problem;
        let fee = p.target.fee;
        let rate = fee.rate@ as int;
        let weight = p.tx_weight(state.selected, DrainWeights::spec_none());
        let lacking = -p.fee_paid(state.selected, 0);
        let bump = p.bump_lower_bound(state.selected, state.reachable());
        let (v, w) = densest(state);
        let for_rate = weight_for(
            4000 * (lacking + bump) + rate * weight,
            w,
            4000 * v - rate * w,
        );
        let for_absolute = weight_for(lacking + fee.absolute, w, v);
        let for_replacement = match fee.replace {
            Some(replace) => {
                let incremental = replace.incremental_relay_feerate@ as int;
                weight_for(
                    4000 * (lacking + replace.fee) + incremental * weight,
                    w,
                    4000 * v - incremental * w,
                )
            },
            None => 0,
        };
        if state.weightless_value_left() {
            0
        } else {
            model::max(model::max(for_rate, for_absolute), for_replacement)
        }
    }

    /// The bound of a selection that does not cover the target, where ancestors can be dragged in:
    /// the fee owed once it has grown by the least weight that can close the gap.
    pub open spec fn unfunded_bound_with_ancestors(self, state: SelectionState) -> int {
        let p = state.problem;
        let fee = p.target.fee;
        let bump = p.bump_lower_bound(state.selected, state.reachable());
        let weight = p.tx_weight(state.selected, DrainWeights::spec_none()) + self.added_weight(
            state,
        );
        if weight > u64::MAX {
            state.fee_floor()
        } else {
            model::max(
                model::max(
                    feerate::saturated(fee.rate.fee_wu(weight)) + bump,
                    fee.absolute as int,
                ),
                match fee.replace {
                    Some(replace) => replace.fee + feerate::saturated(
                        replace.incremental_relay_feerate.fee_wu(weight),
                    ),
                    None => 0,
                },
            )
        }
    }

    /// Whether taking the next `k` candidates is the first time that the target is covered.
    pub open spec fn first_funded(state: SelectionState, k: int) -> bool {
        let none = Drain::spec_none();
        &&& 1 <= k <= state.unselected().len()
        &&& state.problem.funded(state.taking(k).selected, none)
        &&& forall|j: int|
            1 <= j < k ==> !state.problem.funded(#[trigger] state.taking(j).selected, none)
    }

    /// The fee of a selection `s` that is completed by just the part of candidate `c` that each
    /// constraint needs. `None` where no part of it suffices, or the part is too heavy.
    pub open spec fn resized_fee(p: ProblemView, s: Seq<bool>, c: Candidate) -> Option<int> {
        let fee = p.target.fee;
        let none = DrainWeights::spec_none();
        let paid = p.fee_paid(s, 0);
        let for_rate = scale_for(
            p.rate_fee_wu(s, none) - paid,
            c.value * 4000 - c.weight * fee.rate@,
            4000,
        );
        let for_replacement = match fee.replace {
            Some(replace) => scale_for(
                replace.min_fee_wu(p.tx_weight(s, none)) - paid,
                c.value * 4000 - c.weight * replace.incremental_relay_feerate@,
                4000,
            ),
            None => Some((0, 1)),
        };
        let for_absolute = scale_for(fee.absolute - paid, c.value as int, 1);
        match (for_rate, for_replacement, for_absolute) {
            (Some(x), Some(y), Some(z)) => {
                let room = match p.target.max_weight {
                    Some(max_weight) => Some(max_weight - p.tx_weight(s, none)),
                    None => None,
                };
                if Self::too_heavy(x, c, room) || Self::too_heavy(y, c, room) || Self::too_heavy(
                    z,
                    c,
                    room,
                ) {
                    None
                } else {
                    Some(
                        model::max(
                            model::max(Self::part_value(x, c), Self::part_value(y, c)),
                            Self::part_value(z, c),
                        ) + paid,
                    )
                }
            },
            _ => None,
        }
    }

    /// Whether a part of candidate `c` weighs more than there is room for.
    pub open spec fn too_heavy(part: (int, int), c: Candidate, room: Option<int>) -> bool {
        match room {
            Some(room) => part.0 * c.weight > room * part.1,
            None => false,
        }
    }

    /// The value of a part of candidate `c`, rounded down.
    pub open spec fn part_value(part: (int, int), c: Candidate) -> int {
        feerate::saturated((part.0 * c.value) / part.1) as int
    }

    /// The bound of a selection that does not cover the target, where nothing drags in ancestors:
    /// candidates are taken in order until it does, the last of them only in part. `None` where all
    /// of them do not suffice.
    pub open spec fn unfunded_bound(self, state: SelectionState) -> Option<int> {
        let p = state.problem;
        if exists|k: int| Self::first_funded(state, k) {
            let k = choose|k: int| Self::first_funded(state, k);
            let full = state.taking(k).selected;
            if p.excess(full, Drain::spec_none()) == 0 {
                Some(self.long_term_fee(p, full))
            } else {
                let last = state.unselected()[k - 1] as int;
                Self::resized_fee(
                    p,
                    state.taking(k).deselect(last).selected,
                    p.candidates[last],
                )
            }
        } else {
            None
        }
    }

    /// The bound of a state.
    pub open spec fn bound_of(self, state: SelectionState) -> Option<Score> {
        let p = state.problem;
        let s = state.selected;
        if !p.within_max_weight(s, DrainWeights::spec_none()) {
            None
        } else if p.funded(s, Drain::spec_none()) {
            if has_ancestors(p) {
                Some(self.funded_bound_with_ancestors(state) as Score)
            } else {
                Some(self.funded_bound(state) as Score)
            }
        } else if has_ancestors(p) {
            Some(self.unfunded_bound_with_ancestors(state) as Score)
        } else {
            match self.unfunded_bound(state) {
                Some(bound) => Some(bound as Score),
                None => None,
            }
        }
    }

    /// What the metric computes.
    pub open spec fn metric_model(self) -> MetricModel {
        MetricModel {
            score: |p: ProblemView, s: Seq<bool>| self.score_of(p, s),
            bound: |state: SelectionState| self.bound_of(state),
            drain: |p: ProblemView, s: Seq<bool>| self.drain_of(p, s),
            accepts: |p: ProblemView| self.accepts(p),
        }
    }

    /// Whether every amount that the metric computes for a problem can be represented.
    pub fn can_measure(&self, problem: &SelectionProblem) -> (r: bool)
        requires
            problem@.sums_fit(),
        ensures
            r == self.accepts(problem@),
    {
        let weights: DrainWeights = self.drain_weights;
        if !problem.fits(Drain { weights, value: 0 }) || !problem.fits(Drain::none()) {
            return false;
        }
        if weights.output_weight.checked_add(weights.spend_weight).is_none() {
            return false;
        }
        let target: Target = problem.target();
        proof {
            problem@.selection_bounded(problem@.everything());
        }
        let added: u64 = weights.added_output_weight(target.outputs.n_outputs);
        let (rate, later): (u64, u64) = (
            target.fee.rate.sat_per_kvb(),
            self.long_term_feerate.sat_per_kvb(),
        );
        proof {
            let (x, y) = (weights.spend_weight, later);
            assert(0 <= added * rate <= 0xffff_ffff_ffff_ffff * 0xffff_ffff_ffff_ffff)
                by (nonlinear_arith)
                requires
                    0 <= added <= 0xffff_ffff_ffff_ffff,
                    0 <= rate <= 0xffff_ffff_ffff_ffff,
            ;
            assert(0 <= x * y <= 0xffff_ffff_ffff_ffff * 0xffff_ffff_ffff_ffff) by (nonlinear_arith)
                requires
                    0 <= x <= 0xffff_ffff_ffff_ffff,
                    0 <= y <= 0xffff_ffff_ffff_ffff,
            ;
        }
        let now: u128 = added as u128 * rate as u128;
        let then_on: u128 = weights.spend_weight as u128 * later as u128;
        match now.checked_add(then_on) {
            Some(waste) => waste <= 4000 * (u64::MAX as u128),
            None => false,
        }
    }

    /// The value that the change output should have, or `None` if the selection should be
    /// changeless.
    pub fn drain_value(&self, cs: &SelectionView<'_>) -> (r: Option<u64>)
        requires
            cs.inv(),
            self.accepts(cs@.problem),
        ensures
            match r {
                Some(value) => self.change_value(cs@.problem, cs@.selected) == Some(value as int),
                None => self.change_value(cs@.problem, cs@.selected) is None,
            },
    {
        // The change output pays for its own weight, so what is recovered is the excess that is
        // left after that.
        let excess_with_drain_weight: i64 = cs.excess(
            Drain { weights: self.drain_weights, value: 0 },
        );
        // Change is worth it if what is recovered exceeds the future cost of spending it.
        let drain_spend_cost: u64 = self.drain_weights.spend_fee(self.long_term_feerate);
        if excess_with_drain_weight as i128 <= drain_spend_cost as i128 {
            return None;
        }
        // It must not be dust.
        let dust_threshold: u64 = self.drain_weights.dust_threshold(self.dust_relay_feerate);
        if (excess_with_drain_weight as i128) < (dust_threshold as i128) {
            return None;
        }
        // If it would push the transaction over the weight limit, the excess goes to fees instead.
        if !cs.is_within_max_weight(self.drain_weights) {
            return None;
        }
        Some(excess_with_drain_weight as u64)
    }

    /// The change output that the selection should have.
    fn decide_drain(&self, cs: &SelectionView<'_>) -> (drain: Drain)
        requires
            cs.inv(),
            self.accepts(cs@.problem),
        ensures
            drain == self.drain_of(cs@.problem, cs@.selected),
    {
        match self.drain_value(cs) {
            Some(value) => Drain { weights: self.drain_weights, value },
            None => Drain::none(),
        }
    }

    /// The long-term fee of a selection that covers the target, with `drain` as its change.
    fn funded_fee(&self, cs: &SelectionView<'_>, drain: Drain) -> (score: Score)
        requires
            cs.inv(),
            self.accepts(cs@.problem),
            cs@.problem.funded(cs@.selected, Drain::spec_none()),
            drain == self.drain_of(cs@.problem, cs@.selected),
        ensures
            score == self.long_term_fee(cs@.problem, cs@.selected),
            0 <= score <= i64::MAX + u64::MAX,
    {
        proof {
            let p = cs@.problem;
            cs.inv_wf();
            p.fees_bounded(cs@.selected, drain.weights);
            p.fees_bounded(cs@.selected, DrainWeights::spec_none());
            p.selection_bounded(cs@.selected);
        }
        let fee_for_the_tx: i64 = cs.fee(cs.target().value(), drain.value);
        let fee_for_spending_drain: u64 = drain.weights.spend_fee(self.long_term_feerate);
        fee_for_the_tx as i128 + fee_for_spending_drain as i128
    }

    /// Adding an undecided candidate to a selection keeps it within the limits of the problem.
    proof fn one_more_fits(state: SelectionState, c: int, drain: DrainWeights)
        requires
            state.wf(),
            0 <= c < state.problem.n(),
            state.undecided(c),
        ensures
            state.problem.tx_weight(state.selected, drain) + state.problem.candidates[c].weight
                <= state.problem.heaviest(drain),
    {
        let p = state.problem;
        let more = state.selected.update(c, true);
        p.sums_insert(state.selected, c);
        p.selection_bounded(more);
        p.selection_bounded(state.selected);
    }

    /// Whether a selection that extends `cs` could still add both a change output and at least one
    /// more input under the weight limit.
    fn change_is_reachable(&self, cs: &SelectionView<'_>) -> (r: bool)
        requires
            cs.inv(),
            cs.is_current(),
            self.accepts(cs@.problem),
        ensures
            r == self.change_reachable(cs@),
    {
        let max_weight: u64 = match cs.target().max_weight {
            None => {
                return true;
            },
            Some(max_weight) => max_weight,
        };
        let ghost state = cs@;
        let ghost u = state.unselected();
        proof {
            cs.inv_wf();
            state.unselected_lists();
        }
        match cs.selector().min_input_weight() {
            None => {
                proof {
                    assert forall|c: int| 0 <= c < state.problem.n() implies !#[trigger] state.undecided(
                        c,
                    ) by {
                        if state.undecided(c) {
                            assert(u.contains(c as usize));
                        }
                    }
                }
                false
            },
            Some(min_input_weight) => {
                proof {
                    let k = choose|k: int|
                        0 <= k < u.len() && state.problem.candidates[#[trigger] u[k] as int].weight
                            == min_input_weight;
                    assert(state.undecided(u[k] as int));
                    Self::one_more_fits(state, u[k] as int, self.drain_weights);
                    assert forall|c: int| 0 <= c < state.problem.n() && #[trigger] state.undecided(
                        c,
                    ) implies state.problem.candidates[c].weight >= min_input_weight by {
                        assert(u.contains(c as usize));
                        let j = choose|j: int| 0 <= j < u.len() && u[j] == c as usize;
                        assert(state.problem.candidates[u[j] as int].weight >= min_input_weight);
                    }
                }
                cs.tx_weight(self.drain_weights) + min_input_weight <= max_weight
            },
        }
    }

    /// What change costs, rounded down.
    fn change_cost_floor(&self, target: Target, Ghost(p): Ghost<ProblemView>) -> (waste: u64)
        requires
            self.accepts(p),
            target == p.target,
        ensures
            waste == self.change_cost(p),
    {
        proof {
            p.selection_bounded(p.everything());
        }
        self.drain_weights.waste_floor(
            target.fee.rate,
            self.long_term_feerate,
            target.outputs.n_outputs,
        )
    }

    /// The bound of a selection that covers the target, where nothing drags in ancestors.
    ///
    /// The long-term fee of a selection with change is a bound already: whatever is added, dropping
    /// a change output that was worthwhile never lowers it. A changeless selection may be so only
    /// because its change would be dust, so that a heavier one could recover the excess.
    fn bound_funded(&self, cs: &SelectionView<'_>) -> (r: Score)
        requires
            cs.inv(),
            cs.is_current(),
            self.accepts(cs@.problem),
            cs@.problem.funded(cs@.selected, Drain::spec_none()),
        ensures
            r == self.funded_bound(cs@),
    {
        let drain: Drain = self.decide_drain(cs);
        let current_score: Score = self.funded_fee(cs, drain);
        if self.drain_value(cs).is_none() {
            let cost_of_adding_change: u64 = self.change_cost_floor(
                cs.target(),
                Ghost(cs@.problem),
            );
            let cost_of_no_change: i64 = cs.excess(Drain::none());
            let best_score_with_change: Score = current_score - cost_of_no_change as i128
                + cost_of_adding_change as i128;
            if self.change_is_reachable(cs) && best_score_with_change < current_score {
                return best_score_with_change;
            }
        }
        current_score
    }

    /// The bound of a selection that covers the target, where ancestors can be dragged in.
    fn bound_funded_with_ancestors(&self, cs: &SelectionView<'_>) -> (r: Score)
        requires
            cs.inv(),
            cs.is_current(),
            self.accepts(cs@.problem),
            cs@.problem.funded(cs@.selected, Drain::spec_none()),
        ensures
            r == self.funded_bound_with_ancestors(cs@),
    {
        let drain: Drain = self.decide_drain(cs);
        let current_score: Score = self.funded_fee(cs, drain);
        let fall: u64 = cs.ancestor_bump().saturating_sub(cs.ancestor_bump_lower_bound());
        let without: Score = at_least_zero(current_score - fall as i128);
        let mut bound: Score = without;
        if self.drain_value(cs).is_none() {
            let cost_of_adding_change: u64 = self.change_cost_floor(
                cs.target(),
                Ghost(cs@.problem),
            );
            let with_change: Score = at_least_zero(without - cs.excess(Drain::none()) as i128)
                + cost_of_adding_change as i128;
            if self.change_is_reachable(cs) && with_change < bound {
                bound = with_change;
            }
        }
        let floor: u64 = cs.fee_floor();
        if bound >= floor as i128 {
            bound
        } else {
            floor as i128
        }
    }

    /// Whether the three deficits of `added_weight` are within the limits of exact arithmetic.
    proof fn deficits_bounded(p: ProblemView, s: Seq<bool>, bump: int)
        requires
            p.fits(Drain::spec_none()),
            s.len() == p.n(),
            0 <= bump <= p.target.fee.rate.fee_wu(p.all_ancestor_weight()),
        ensures
            ({
                let fee = p.target.fee;
                let weight = p.tx_weight(s, DrainWeights::spec_none());
                let lacking = -p.fee_paid(s, 0);
                &&& -i64::MAX <= lacking <= i64::MAX
                &&& 0 <= fee.rate@ * weight <= 4000 * i64::MAX
                &&& 4000 * (lacking + bump) + fee.rate@ * weight <= 4000 * i64::MAX + 4000
                &&& lacking + fee.absolute <= i64::MAX
                &&& fee.replace matches Some(replace) ==> {
                    &&& 0 <= replace.incremental_relay_feerate@ * weight <= 4000 * i64::MAX
                    &&& 4000 * (lacking + replace.fee) + replace.incremental_relay_feerate@ * weight
                        <= 4000 * i64::MAX + 4000
                }
            }),
    {
        let fee = p.target.fee;
        let none = DrainWeights::spec_none();
        let weight = p.tx_weight(s, none);
        p.fees_bounded(s, none);
        p.selection_bounded(s);
        fee.rate.fee_monotone(weight, p.heaviest(none));
        let rate = fee.rate@ as int;
        assert(rate * weight == weight * rate) by (nonlinear_arith);
        assert(0 <= weight * rate) by (nonlinear_arith)
            requires
                0 <= weight,
                0 <= rate,
        ;
        if let Some(replace) = fee.replace {
            let incremental = replace.incremental_relay_feerate@ as int;
            assert(incremental * weight == weight * incremental) by (nonlinear_arith);
            assert(0 <= weight * incremental) by (nonlinear_arith)
                requires
                    0 <= weight,
                    0 <= incremental,
            ;
        }
    }

    /// The least weight that any selection extending `cs` adds before it covers the target.
    fn least_added_weight(&self, cs: &SelectionView<'_>, bump: u64) -> (added: u64)
        requires
            cs.inv(),
            self.accepts(cs@.problem),
            bump == cs@.problem.bump_lower_bound(cs@.selected, cs@.reachable()),
        ensures
            added == feerate::saturated(self.added_weight(cs@)),
            self.added_weight(cs@) >= 0,
    {
        let ghost state = cs@;
        let ghost p = cs@.problem;
        proof {
            cs.inv_wf();
            p.lower_bound_bounded(state.selected, state.reachable());
            Self::deficits_bounded(p, state.selected, bump as int);
            p.fees_bounded(state.selected, DrainWeights::spec_none());
        }
        if cs.has_weightless_undecided_value() {
            return 0;
        }
        let target: Target = cs.target();
        let (best_value, best_weight) = cs.best_undecided_value_pwu();
        proof {
            same_density(state, best_value as int, best_weight as int);
        }
        let ghost (v, w) = densest(state);
        let current_weight: u64 = cs.tx_weight(DrainWeights::none());
        let lacking: i128 = -(cs.fee(target.value(), 0) as i128);
        let rate: u64 = target.fee.rate.sat_per_kvb();
        proof {
            product_bounded(rate as int, current_weight as int);
            product_bounded(rate as int, best_weight as int);
        }
        let rate_deficit: i128 = 4000 * (lacking + bump as i128) + (rate as u128
            * current_weight as u128) as i128;
        let for_rate: u64 = weight_to_gain(
            rate_deficit,
            best_value,
            best_weight,
            rate,
            Ghost(v),
            Ghost(w),
        );
        let for_absolute: u64 = weight_to_gain(
            4000 * (lacking + target.fee.absolute as i128),
            best_value,
            best_weight,
            0,
            Ghost(v),
            Ghost(w),
        );
        proof {
            weight_for_scaled(lacking + target.fee.absolute, w, v);
            assert(0 * w == 0) by (nonlinear_arith);
        }
        let mut added: u64 = if for_rate >= for_absolute {
            for_rate
        } else {
            for_absolute
        };
        if let Some(replace) = target.fee.replace {
            let incremental: u64 = replace.incremental_relay_feerate.sat_per_kvb();
            proof {
                product_bounded(incremental as int, current_weight as int);
            }
            let replace_deficit: i128 = 4000 * (lacking + replace.fee as i128) + (incremental as u128
                * current_weight as u128) as i128;
            let for_replacement: u64 = weight_to_gain(
                replace_deficit,
                best_value,
                best_weight,
                incremental,
                Ghost(v),
                Ghost(w),
            );
            if for_replacement > added {
                added = for_replacement;
            }
        }
        added
    }

    /// The bound of a selection that does not cover the target, where ancestors can be dragged in.
    ///
    /// It never claims that nothing below is valid: the deficit of a private ancestor can leave a
    /// selection unfunded where a smaller one is funded.
    fn bound_unfunded_with_ancestors(&self, cs: &SelectionView<'_>) -> (r: Score)
        requires
            cs.inv(),
            self.accepts(cs@.problem),
        ensures
            r == self.unfunded_bound_with_ancestors(cs@),
    {
        let target: Target = cs.target();
        proof {
            cs.inv_wf();
            cs@.problem.fees_bounded(cs@.selected, DrainWeights::spec_none());
        }
        let bump: u64 = cs.ancestor_bump_lower_bound();
        let current_weight: u64 = cs.tx_weight(DrainWeights::none());
        let added_weight: u64 = self.least_added_weight(cs, bump);
        let weight: u64 = match current_weight.checked_add(added_weight) {
            Some(weight) => weight,
            None => {
                return cs.fee_floor() as i128;
            },
        };
        proof {
            target.fee.rate.fee_wu_at_most_fee(weight as int);
        }
        let mut bound: Score = target.fee.rate.implied_fee_wu(weight) as i128 + bump as i128;
        if (target.fee.absolute as i128) > bound {
            bound = target.fee.absolute as i128;
        }
        if let Some(replace) = target.fee.replace {
            let replacement: i128 = replace.fee as i128
                + replace.incremental_relay_feerate.implied_fee_wu(weight) as i128;
            if replacement > bound {
                bound = replacement;
            }
        }
        bound
    }

    /// The fee of the selection `cs` once it is completed by just the part of candidate `c` that
    /// each fee constraint needs. `None` where no part of it suffices, or the part is too heavy.
    ///
    /// No fee is needed for rounding weight units up to vbytes, so weight units are priced.
    fn resize(cs: &SelectionView<'_>, c: Candidate) -> (r: Option<Score>)
        requires
            cs.inv(),
            cs@.problem.fits(Drain::spec_none()),
        ensures
            match r {
                Some(fee) => Self::resized_fee(cs@.problem, cs@.selected, c) == Some(fee as int),
                None => Self::resized_fee(cs@.problem, cs@.selected, c) is None,
            },
            r matches Some(fee) ==> -i64::MAX <= fee <= i64::MAX + u64::MAX,
    {
        let target: Target = cs.target();
        let none = Drain::none();
        proof {
            cs.inv_wf();
            cs@.problem.fees_bounded(cs@.selected, none.weights);
            cs@.problem.selection_bounded(cs@.selected);
            let (weight, rate) = (c.weight as int, target.fee.rate@ as int);
            product_bounded(weight, rate);
        }
        let paid: i64 = cs.fee(target.value(), 0);
        let scaled_value: u128 = c.value as u128 * 4000;
        let rate_cost: u128 = c.weight as u128 * target.fee.rate.sat_per_kvb() as u128;
        let for_rate: Option<(u128, u128)> = part_for(
            -(cs.rate_excess_wu(none) as i128),
            scaled_value,
            rate_cost,
            4000,
        );
        let for_replacement: Option<(u128, u128)> = match target.fee.replace {
            Some(replace) => {
                proof {
                    let (weight, rate) = (
                        c.weight as int,
                        replace.incremental_relay_feerate@ as int,
                    );
                    product_bounded(weight, rate);
                }
                let cost: u128 = c.weight as u128
                    * replace.incremental_relay_feerate.sat_per_kvb() as u128;
                part_for(-(cs.replacement_excess_wu(none) as i128), scaled_value, cost, 4000)
            },
            None => Some((0, 1)),
        };
        let for_absolute: Option<(u128, u128)> = part_for(
            -(cs.absolute_excess(none) as i128),
            c.value as u128,
            0,
            1,
        );
        let (x, y, z) = match (for_rate, for_replacement, for_absolute) {
            (Some(x), Some(y), Some(z)) => (x, y, z),
            _ => {
                return None;
            },
        };
        if let Some(max_weight) = target.max_weight {
            let weight: u64 = cs.tx_weight(none.weights);
            let ghost room = max_weight - weight;
            if weight > max_weight {
                proof {
                    let (n, w, d) = (x.0 as int, c.weight as int, x.1 as int);
                    assert(n * w > room * d) by (nonlinear_arith)
                        requires
                            n >= 0,
                            w >= 0,
                            d > 0,
                            room < 0,
                    ;
                }
                return None;
            }
            let room: u64 = max_weight - weight;
            if mul_div_exceeds(x.0, c.weight, x.1, room) || mul_div_exceeds(
                y.0,
                c.weight,
                y.1,
                room,
            ) || mul_div_exceeds(z.0, c.weight, z.1, room) {
                return None;
            }
        }
        let mut value: u64 = mul_div(x.0, c.value, x.1);
        let for_replacement_value: u64 = mul_div(y.0, c.value, y.1);
        if for_replacement_value > value {
            value = for_replacement_value;
        }
        let for_absolute_value: u64 = mul_div(z.0, c.value, z.1);
        if for_absolute_value > value {
            value = for_absolute_value;
        }
        Some(value as i128 + paid as i128)
    }

    /// The bound of a selection that does not cover the target, where nothing drags in ancestors.
    fn bound_unfunded(&self, cs: &SelectionView<'_>) -> (r: Option<Score>)
        requires
            cs.inv(),
            cs.is_current(),
            self.accepts(cs@.problem),
        ensures
            match r {
                Some(bound) => self.unfunded_bound(cs@) == Some(bound as int),
                None => self.unfunded_bound(cs@) is None,
            },
    {
        let ghost state = cs@;
        let ghost none = Drain::spec_none();
        proof {
            cs.inv_wf();
            state.unselected_lists();
            state.taking_none();
        }
        // Select everything up to the input that covers the target.
        let unselected: Vec<usize> = cs.selector().unselected_indices();
        let mut local: SelectionView<'_> = cs.clone();
        let mut k: usize = 0;
        let mut funded: bool = false;
        while !funded && k < unselected.len()
            invariant
                local.inv(),
                state.wf(),
                none == Drain::spec_none(),
                self.accepts(state.problem),
                unselected@ == state.unselected(),
                forall|j: int|
                    0 <= j < unselected@.len() ==> #[trigger] unselected@[j] < state.problem.n(),
                k <= unselected@.len(),
                local@ == state.taking(k as int),
                forall|j: int|
                    1 <= j < k ==> !state.problem.funded(#[trigger] state.taking(j).selected, none),
                k == 0 ==> !funded,
                k > 0 ==> funded == state.problem.funded(state.taking(k as int).selected, none),
            decreases unselected@.len() - k,
        {
            proof {
                state.taking_next(k as int);
            }
            local.add(unselected[k]);
            k = k + 1;
            funded = local.is_funded();
        }
        if !funded {
            proof {
                assert forall|j: int| !Self::first_funded(state, j) by {
                    if Self::first_funded(state, j) {
                        assert(j <= k);
                        if j < k {
                            assert(!state.problem.funded(state.taking(j).selected, none));
                        }
                    }
                }
            }
            return None;
        }
        proof {
            assert(Self::first_funded(state, k as int));
            let j = choose|j: int| Self::first_funded(state, j);
            if j < k {
                assert(!state.problem.funded(state.taking(j).selected, none));
            }
            if k < j {
                assert(!state.problem.funded(state.taking(k as int).selected, none));
            }
            assert(j == k);
        }
        // If this selection is perfect already, its score is the bound.
        if local.excess(Drain::none()) == 0 {
            let drain: Drain = self.decide_drain(&local);
            return Some(self.funded_fee(&local, drain));
        }
        // Otherwise imagine that the last input is resized so that it hits the target just so.
        let last: usize = unselected[k - 1];
        local.sub(last);
        Self::resize(&local, cs.candidate(last))
    }
}

/// By which part of a candidate a deficit is closed, as a fraction, where the candidate gains
/// `(value - cost) / unit`. `None` where it gains nothing.
fn part_for(deficit: i128, value: u128, cost: u128, unit: u128) -> (r: Option<(u128, u128)>)
    requires
        deficit <= i64::MAX + 1,
        value < ratio::RATIO_LIMIT,
        1 <= unit <= 4000,
    ensures
        match r {
            Some((n, d)) => {
                &&& scale_for(deficit as int, value - cost, unit as int) == Some(
                    (n as int, d as int),
                )
                &&& n < ratio::RATIO_LIMIT
                &&& 0 < d < ratio::RATIO_LIMIT
            },
            None => scale_for(deficit as int, value - cost, unit as int) is None,
        },
{
    if deficit <= 0 {
        return Some((0, 1));
    }
    if value <= cost {
        return None;
    }
    proof {
        assert(0 <= deficit * unit <= 0x8000_0000_0000_0000 * 4000) by (nonlinear_arith)
            requires
                0 <= deficit <= 0x8000_0000_0000_0000,
                0 <= unit <= 4000,
        ;
    }
    Some((deficit as u128 * unit, value - cost))
}

impl BnbMetric for LowestFee {
    open spec fn model(&self) -> MetricModel {
        self.metric_model()
    }

    fn drain(&mut self, cs: &SelectionView<'_>) -> (r: Drain)
        ensures
            *final(self) == *old(self),
    {
        self.decide_drain(cs)
    }

    fn score(&mut self, cs: &SelectionView<'_>) -> (r: Option<Score>)
        ensures
            *final(self) == *old(self),
    {
        if !cs.is_funded() {
            return None;
        }
        let drain: Drain = self.decide_drain(cs);
        // Change that is too heavy is refused already, but a changeless selection can still be too
        // heavy by itself.
        if !cs.is_within_max_weight(drain.weights) {
            return None;
        }
        Some(self.funded_fee(cs, drain))
    }

    fn bound(&mut self, cs: &SelectionView<'_>) -> (r: Option<Score>)
        ensures
            *final(self) == *old(self),
    {
        // Input weight only grows below a node, so if this selection is too heavy without change,
        // everything below is. Ancestors have no part in that: the limit is on the transaction
        // itself.
        if !cs.is_within_max_weight(DrainWeights::none()) {
            return None;
        }
        let with_ancestors: bool = cs.problem().has_ancestors();
        if cs.is_funded() {
            if with_ancestors {
                Some(self.bound_funded_with_ancestors(cs))
            } else {
                Some(self.bound_funded(cs))
            }
        } else if with_ancestors {
            Some(self.bound_unfunded_with_ancestors(cs))
        } else {
            self.bound_unfunded(cs)
        }
    }

    fn requires_ordering_by_descending_value_pwu(&self) -> (r: bool)
        ensures
            r,
    {
        true
    }
}

/// Products of two 64-bit numbers fit 128 bits.
proof fn product_bounded(a: int, b: int)
    requires
        0 <= a <= u64::MAX,
        0 <= b <= u64::MAX,
    ensures
        0 <= a * b <= u64::MAX * u64::MAX,
{
    assert(0 <= a * b <= u64::MAX * u64::MAX) by (nonlinear_arith)
        requires
            0 <= a <= u64::MAX,
            0 <= b <= u64::MAX,
    ;
}

/// A deficit and a gain that are both scaled need the same weight.
proof fn weight_for_scaled(deficit: int, weight: int, gain: int)
    requires
        weight >= 0,
    ensures
        weight_for(4000 * deficit, weight, 4000 * gain) == weight_for(deficit, weight, gain),
{
    if deficit > 0 && gain > 0 {
        let product = deficit * weight;
        assert(0 <= product && 4000 * deficit * weight == 4000 * product) by (nonlinear_arith)
            requires
                product == deficit * weight,
                0 <= deficit,
                0 <= weight,
        ;
        vstd::arithmetic::div_mod::lemma_div_multiples_vanish_quotient(4000, product, gain);
    }
}

/// The weight that closes a deficit depends on the value per weight unit only.
proof fn weight_for_density(deficit: int, v: int, w: int, x: int, y: int, rate: int)
    requires
        w > 0,
        y > 0,
        v * y == x * w,
    ensures
        weight_for(deficit, w, 4000 * v - rate * w) == weight_for(deficit, y, 4000 * x - rate * y),
        4000 * v - rate * w > 0 <==> 4000 * x - rate * y > 0,
{
    let (g, h) = (4000 * v - rate * w, 4000 * x - rate * y);
    assert(y * g == w * h) by (nonlinear_arith)
        requires
            g == 4000 * v - rate * w,
            h == 4000 * x - rate * y,
            v * y == x * w,
    ;
    assert(g > 0 <==> h > 0) by (nonlinear_arith)
        requires
            y * g == w * h,
            y > 0,
            w > 0,
    ;
    if deficit > 0 && g > 0 {
        let (a, b) = (deficit * w, deficit * y);
        assert(0 <= a && 0 <= b && y * a == w * b) by (nonlinear_arith)
            requires
                a == deficit * w,
                b == deficit * y,
                deficit > 0,
                w > 0,
                y > 0,
        ;
        vstd::arithmetic::div_mod::lemma_div_multiples_vanish_quotient(y, a, g);
        vstd::arithmetic::div_mod::lemma_div_multiples_vanish_quotient(w, b, h);
    }
}

/// A fraction that is one of the undecided candidates' and that none exceeds is the densest one's.
proof fn same_density(state: SelectionState, value: int, weight: int)
    requires
        state.wf(),
        weight > 0,
        (value == 0 && weight == 1) || exists|c: int|
            0 <= c < state.problem.n() && #[trigger] state.undecided(c) && value
                == state.problem.candidates[c].value && weight == state.problem.candidates[c].weight,
        forall|c: int|
            0 <= c < state.problem.n() && #[trigger] state.undecided(c)
                && state.problem.candidates[c].weight > 0 ==> state.problem.candidates[c].value
                * weight <= value * state.problem.candidates[c].weight,
    ensures
        densest(state).0 >= 0,
        densest(state).1 > 0,
        value * densest(state).1 == densest(state).0 * weight,
{
    let (v, w) = densest(state);
    if exists|c: int| is_densest(state, c) {
        let c = choose|c: int| is_densest(state, c);
        assert(v * weight <= value * w);
        if value == 0 && weight == 1 {
            assert(0 * w == 0) by (nonlinear_arith);
        } else {
            let d = choose|d: int|
                0 <= d < state.problem.n() && #[trigger] state.undecided(d) && value
                    == state.problem.candidates[d].value && weight
                    == state.problem.candidates[d].weight;
            assert(state.undecided(d));
            assert(value * w <= v * weight);
        }
    } else if !(value == 0 && weight == 1) {
        let d = choose|d: int|
            0 <= d < state.problem.n() && #[trigger] state.undecided(d) && value
                == state.problem.candidates[d].value && weight
                == state.problem.candidates[d].weight;
        assert(is_densest(state, d));
    }
}

/// The least weight that closes a deficit, 4000 times over, with candidates of which `best_weight`
/// is worth `best_value`, at `rate`.
fn weight_to_gain(
    deficit: i128,
    best_value: u64,
    best_weight: u64,
    rate: u64,
    Ghost(v): Ghost<int>,
    Ghost(w): Ghost<int>,
) -> (weight: u64)
    requires
        deficit < ratio::RATIO_LIMIT,
        best_weight > 0,
        v >= 0,
        w > 0,
        best_value * w == v * best_weight,
    ensures
        weight == feerate::saturated(weight_for(deficit as int, w, 4000 * v - rate * w)),
        weight_for(deficit as int, w, 4000 * v - rate * w) >= 0,
{
    proof {
        product_bounded(rate as int, best_weight as int);
        weight_for_density(
            deficit as int,
            best_value as int,
            best_weight as int,
            v,
            w,
            rate as int,
        );
    }
    let scaled_value: u128 = 4000 * (best_value as u128);
    let scaled_cost: u128 = rate as u128 * best_weight as u128;
    if deficit <= 0 || scaled_value <= scaled_cost {
        return 0;
    }
    proof {
        let (a, g) = (deficit * best_weight, 4000 * best_value - rate * best_weight);
        assert(0 <= a) by (nonlinear_arith)
            requires
                a == deficit * best_weight,
                deficit > 0,
                best_weight > 0,
        ;
        vstd::arithmetic::div_mod::lemma_div_pos_is_pos(a, g);
    }
    mul_div(deficit as u128, best_weight, scaled_value - scaled_cost)
}

/// The score, or zero where it is negative.
fn at_least_zero(score: Score) -> (r: Score)
    ensures
        r == model::max(score as int, 0),
{
    if score >= 0 {
        score
    } else {
        0
    }
}

} // verus!
