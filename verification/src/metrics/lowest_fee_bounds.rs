//! How far the bound of the lowest-fee metric can be trusted.
use crate::bitset;
use crate::bnb;
use crate::bnb_iter;
use crate::candidate::Candidate;
use crate::drain::{Drain, DrainWeights};
use crate::feerate;
use crate::feerate::FeeRate;
use crate::metrics::greedy_bound;
use crate::metrics::lowest_fee;
use crate::metrics::lowest_fee::LowestFee;
use crate::model;
use crate::model::{ProblemView, SelectionState};
use crate::sort;
use crate::sums;
use vstd::prelude::*;

verus! {

impl LowestFee {
    /// What the score of a valid selection is: with change, the fee that is owed and the cost of
    /// spending the change; without, all that the inputs are worth beyond the outputs, which is no
    /// less than the fee that is owed.
    pub proof fn score_is_a_fee(self, p: ProblemView, t: Seq<bool>)
        requires
            self.accepts(p),
            t.len() == p.n(),
            self.score_of(p, t) is Some,
        ensures
            self.score_of(p, t)->0 == self.long_term_fee(p, t),
            p.fee_owed(t, DrainWeights::spec_none()) <= self.long_term_fee(p, t),
            p.within_max_weight(t, DrainWeights::spec_none()),
            match self.change_value(p, t) {
                Some(value) => {
                    &&& self.long_term_fee(p, t) == p.fee_owed(t, self.drain_weights)
                        + self.drain_weights.future_fee(self.long_term_feerate)
                    &&& p.within_max_weight(t, self.drain_weights)
                },
                None => self.long_term_fee(p, t) == p.fee_paid(t, 0),
            },
    {
        let none = DrainWeights::spec_none();
        p.selection_bounded(t);
        p.fees_bounded(t, self.drain_weights);
        p.fees_bounded(t, none);
        p.drain_owes_more(t, self.drain_weights);
        self.long_term_feerate.fee_wu_at_most_fee(0);
        self.long_term_feerate.fee_wu_at_most_fee(self.drain_weights.spend_weight as int);
    }

    /// No valid selection at or below a node scores less than the node's fee floor.
    pub proof fn no_score_below_the_fee_floor(self, state: SelectionState, t: Seq<bool>)
        requires
            state.wf(),
            self.accepts(state.problem),
            state.extended_by(t),
            self.score_of(state.problem, t) is Some,
        ensures
            state.fee_floor() <= self.score_of(state.problem, t)->0,
    {
        let p = state.problem;
        self.score_is_a_fee(p, t);
        self.rates_fit(p);
        state.fee_floor_holds(t, DrainWeights::spec_none());
    }

    /// Where a selection is too heavy without change, nothing below it is valid.
    pub proof fn too_heavy_for_good(self, state: SelectionState, t: Seq<bool>)
        requires
            state.wf(),
            self.accepts(state.problem),
            state.extended_by(t),
            !state.problem.within_max_weight(state.selected, DrainWeights::spec_none()),
        ensures
            self.score_of(state.problem, t) is None,
    {
        let p = state.problem;
        if self.score_of(p, t) is Some {
            self.score_is_a_fee(p, t);
            p.weight_monotone(state.selected, t, DrainWeights::spec_none());
        }
    }

    /// The fees at the target rate of what is accepted can be represented.
    pub proof fn rates_fit(self, p: ProblemView)
        requires
            self.accepts(p),
        ensures
            p.target.fee.rate.fee_wu(p.all_ancestor_weight()) <= i64::MAX,
    {
        p.selection_bounded(p.everything());
        p.target.fee.rate.fee_wu_at_most_fee(p.heaviest(DrainWeights::spec_none()));
    }

    /// How far what is owed can fall below a node: no further than the bump can.
    proof fn owed_falls_with_the_bump(
        self,
        state: SelectionState,
        t: Seq<bool>,
        drain: DrainWeights,
    )
        requires
            state.wf(),
            self.accepts(state.problem),
            state.extended_by(t),
        ensures
            ({
                let p = state.problem;
                let s = state.selected;
                let fall = p.bump(s) - p.bump_lower_bound(s, state.reachable());
                &&& 0 <= fall
                &&& p.fee_owed(s, drain) - fall <= p.fee_owed(t, drain)
                &&& p.bump_lower_bound(s, state.reachable()) <= p.bump(t)
            }),
    {
        let p = state.problem;
        let s = state.selected;
        self.rates_fit(p);
        p.bump_lower_bound_holds(s, state.reachable(), t);
        p.bump_lower_bound_holds(s, state.reachable(), s);
        p.weight_monotone(s, t, drain);
        let (w, v) = (p.tx_weight(s, drain), p.tx_weight(t, drain));
        p.target.fee.rate.fee_monotone(w, v);
        if let Some(replace) = p.target.fee.replace {
            replace.incremental_relay_feerate.fee_monotone(w, v);
        }
    }

    /// A change output that is worth having is never worth dropping: where a selection has change,
    /// no valid selection below it scores less than its own long-term fee, less what the bump of
    /// the ancestors could still fall.
    pub proof fn change_is_not_worth_dropping(self, state: SelectionState, t: Seq<bool>)
        requires
            state.wf(),
            self.accepts(state.problem),
            state.extended_by(t),
            self.change_value(state.problem, state.selected) is Some,
            self.score_of(state.problem, t) is Some,
        ensures
            ({
                let p = state.problem;
                let fall = p.bump(state.selected) - p.bump_lower_bound(
                    state.selected,
                    state.reachable(),
                );
                self.long_term_fee(p, state.selected) - fall <= self.score_of(p, t)->0
            }),
            !lowest_fee::has_ancestors(state.problem) ==> self.long_term_fee(
                state.problem,
                state.selected,
            ) <= self.score_of(state.problem, t)->0,
    {
        let p = state.problem;
        let s = state.selected;
        self.score_is_a_fee(p, t);
        self.owed_falls_with_the_bump(state, t, self.drain_weights);
        p.sums_monotone(s, t);
        p.selection_bounded(s);
        p.fees_bounded(s, self.drain_weights);
        if !lowest_fee::has_ancestors(p) {
            p.no_ancestors_no_bump(s);
            p.no_ancestors_no_lower_bound(s, state.reachable());
        }
    }

    /// Whether what is owed by a selection without change grows with its weight at least at the
    /// target rate: that rate decides it, or the rate of a replacement that is no lower.
    pub open spec fn grows_at_the_rate(p: ProblemView, s: Seq<bool>) -> bool {
        let none = DrainWeights::spec_none();
        ||| p.fee_owed(s, none) == p.rate_fee(s, none)
        ||| match p.target.fee.replace {
            Some(replace) => {
                &&& replace.incremental_relay_feerate@ >= p.target.fee.rate@
                &&& p.fee_owed(s, none) == replace.min_fee(p.tx_weight(s, none))
            },
            None => false,
        }
    }

    /// Whether change adds whole vbytes.
    pub open spec fn change_is_whole(self, p: ProblemView) -> bool {
        self.drain_weights.added_weight(p.target.outputs.n_outputs as int) % 4 == 0
    }

    /// Whether change that is added with a candidate pays for its weight in spite of rounding: it
    /// adds whole vbytes, or no undecided candidate is lighter than the rounding to whole vbytes.
    pub open spec fn change_pays(self, state: SelectionState) -> bool {
        self.change_is_whole(state.problem) || forall|c: int|
            0 <= c < state.problem.n() && #[trigger] state.undecided(c)
                ==> state.problem.candidates[c].weight >= 3
    }

    /// Weight that is added costs at least its share, where it is whole vbytes, or more is added
    /// than the rounding to whole vbytes can take.
    proof fn added_weight_is_paid_for(rate: FeeRate, least: FeeRate, w: int, a: int, heavier: int)
        requires
            0 <= w,
            0 <= a,
            heavier >= w + a + 3 || heavier >= w + a && a % 4 == 0,
            least@ <= rate@,
        ensures
            rate.fee(heavier) >= rate.fee(w) + (a * least@) / 4000,
    {
        let r = rate@ as int;
        let (v, u) = (feerate::ceil(w, 4), feerate::ceil(heavier, 4));
        assert((4 * v + a) * r <= (4 * u) * r) by (nonlinear_arith)
            requires
                4 * v + a <= 4 * u,
                0 <= r,
        ;
        assert((4 * v + a) * r == 4 * (v * r) + a * r) by (nonlinear_arith);
        assert((4 * u) * r == 4 * (u * r)) by (nonlinear_arith);
        assert(a * least@ <= a * r) by (nonlinear_arith)
            requires
                0 <= a,
                least@ <= r,
        ;
    }

    /// What a valid selection with change pays at least, where it extends one without: what that
    /// one owes, the bump at its lowest, and the cost of change.
    proof fn change_costs_its_share(self, state: SelectionState, t: Seq<bool>)
        requires
            state.wf(),
            self.accepts(state.problem),
            state.extended_by(t),
            state.problem.tx_weight(t, DrainWeights::spec_none()) >= state.problem.tx_weight(
                state.selected,
                DrainWeights::spec_none(),
            ) + 3 || self.change_is_whole(state.problem),
            Self::grows_at_the_rate(state.problem, state.selected),
        ensures
            ({
                let p = state.problem;
                let s = state.selected;
                let fall = p.bump(s) - p.bump_lower_bound(s, state.reachable());
                let paid = p.fee_owed(t, self.drain_weights) + self.drain_weights.future_fee(
                    self.long_term_feerate,
                );
                &&& p.fee_owed(s, DrainWeights::spec_none()) - fall + self.change_cost(p) <= paid
                &&& self.change_cost(p) <= paid
            }),
    {
        let p = state.problem;
        let s = state.selected;
        let none = DrainWeights::spec_none();
        let fee = p.target.fee;
        let rate = fee.rate;
        self.owed_falls_with_the_bump(state, t, none);
        let a = self.drain_weights.added_weight(p.target.outputs.n_outputs as int);
        let (w, heavier) = (p.tx_weight(s, none), p.tx_weight(t, self.drain_weights));
        p.fees_bounded(s, none);
        p.fees_bounded(t, none);
        assert(heavier == p.tx_weight(t, none) + a);
        p.weight_monotone(s, t, none);
        Self::added_weight_is_paid_for(rate, rate, w, a, heavier);
        if let Some(replace) = fee.replace {
            if replace.incremental_relay_feerate@ >= rate@ {
                Self::added_weight_is_paid_for(
                    replace.incremental_relay_feerate,
                    rate,
                    w,
                    a,
                    heavier,
                );
            }
        }
        let x = a * rate@;
        let b = self.drain_weights.spend_weight * self.long_term_feerate@;
        assert(0 <= x) by (nonlinear_arith)
            requires
                0 <= a,
                0 <= rate@,
                x == a * rate@,
        ;
        self.long_term_feerate.fee_wu_at_most_fee(self.drain_weights.spend_weight as int);
        assert(self.change_cost(p) == (x + b) / 4000);
        assert((x + b) / 4000 <= x / 4000 + feerate::ceil(b, 4000));
        assert(self.drain_weights.future_fee(self.long_term_feerate) == feerate::ceil(b, 4000));
    }

    /// Where a selection has no change, no valid selection below it scores less than the bound that
    /// allows for change to be added, as long as what it owes grows at least at the target rate and
    /// change pays for its weight in spite of rounding.
    pub proof fn adding_change_saves_no_more(self, state: SelectionState, t: Seq<bool>)
        requires
            state.wf(),
            self.accepts(state.problem),
            state.extended_by(t),
            state.problem.funded(state.selected, Drain::spec_none()),
            self.change_value(state.problem, state.selected) is None,
            self.score_of(state.problem, t) is Some,
            Self::grows_at_the_rate(state.problem, state.selected),
            self.change_pays(state),
        ensures
            self.funded_bound_with_ancestors(state) <= self.score_of(state.problem, t)->0,
            !lowest_fee::has_ancestors(state.problem) ==> self.funded_bound(state)
                <= self.score_of(state.problem, t)->0,
    {
        let p = state.problem;
        let s = state.selected;
        let none = DrainWeights::spec_none();
        self.score_is_a_fee(p, t);
        self.no_score_below_the_fee_floor(state, t);
        self.owed_falls_with_the_bump(state, t, none);
        p.sums_monotone(s, t);
        p.fees_bounded(s, none);
        p.fees_bounded(t, none);
        self.long_term_feerate.fee_wu_at_most_fee(0);
        assert(self.long_term_fee(p, s) == p.fee_paid(s, 0));
        if !lowest_fee::has_ancestors(p) {
            p.no_ancestors_no_bump(s);
            p.no_ancestors_no_lower_bound(s, state.reachable());
        }
        if self.change_value(p, t) is Some {
            if forall|c: int| 0 <= c < t.len() ==> t[c] == s[c] {
                assert(t =~= s);
            }
            let c = choose|c: int| 0 <= c < t.len() && t[c] != s[c];
            assert(t[c] && state.undecided(c));
            let one_more = s.update(c, true);
            p.sums_insert(s, c);
            assert(bitset::subset(s, one_more));
            assert(bitset::subset(one_more, t));
            p.sums_monotone(s, one_more);
            p.weight_monotone(one_more, t, self.drain_weights);
            p.weight_monotone(one_more, t, none);
            assert(p.tx_weight(one_more, self.drain_weights) >= p.tx_weight(s, self.drain_weights)
                + p.candidates[c].weight);
            assert(p.tx_weight(one_more, none) >= p.tx_weight(s, none) + p.candidates[c].weight);
            assert(self.change_reachable(state));
            self.change_costs_its_share(state, t);
        }
    }

    /// What a selection below a node that covers the target weighs more than the node: at least
    /// what closes each gap when the candidate with the most value per weight unit can be taken
    /// without limit.
    pub proof fn covering_the_target_takes_weight(self, state: SelectionState, t: Seq<bool>)
        requires
            state.wf(),
            self.accepts(state.problem),
            state.extended_by(t),
            state.problem.funded(t, Drain::spec_none()),
        ensures
            state.problem.tx_weight(t, DrainWeights::spec_none()) >= state.problem.tx_weight(
                state.selected,
                DrainWeights::spec_none(),
            ) + self.added_weight(state),
            0 <= self.added_weight(state),
    {
        let p = state.problem;
        let s = state.selected;
        let none = DrainWeights::spec_none();
        p.sums_monotone(s, t);
        p.fees_bounded(t, none);
        self.owed_falls_with_the_bump(state, t, none);
        if !state.weightless_value_left() {
            let fee = p.target.fee;
            let rate = fee.rate@ as int;
            let (weight, heavier) = (p.tx_weight(s, none), p.tx_weight(t, none));
            let more = heavier - weight;
            let gained = p.value_of(t) - p.value_of(s);
            let lacking = -p.fee_paid(s, 0);
            let bump = p.bump_lower_bound(s, state.reachable());
            let (v, w) = lowest_fee::densest(state);
            densest_limits_gain(state, t);
            assert(gained * w <= v * more) by (nonlinear_arith)
                requires
                    gained * w <= v * (p.weight_of(t) - p.weight_of(s)),
                    p.weight_of(t) - p.weight_of(s) <= more,
                    0 <= v,
            ;
            fee.rate.fee_is_exact(heavier, p.fee_paid(t, 0) - p.bump(t));
            fee.rate.fee_wu_at_most_fee(heavier);
            assert(heavier * rate == rate * weight + rate * more) by (nonlinear_arith)
                requires
                    more == heavier - weight,
            ;
            closes_the_gap(
                4000 * (lacking + bump) + rate * weight,
                v,
                w,
                rate,
                4000,
                gained,
                more,
                weight,
                heavier,
            );
            closes_the_gap(lacking + fee.absolute, v, w, 0, 1, gained, more, weight, heavier);
            assert(1 * v - 0 * w == v) by (nonlinear_arith);
            if let Some(replace) = fee.replace {
                let incremental = replace.incremental_relay_feerate;
                incremental.fee_is_exact(heavier, p.fee_paid(t, 0) - replace.fee);
                incremental.fee_wu_at_most_fee(heavier);
                assert(heavier * incremental@ == incremental@ * weight + incremental@ * more)
                    by (nonlinear_arith)
                    requires
                        more == heavier - weight,
                ;
                closes_the_gap(
                    4000 * (lacking + replace.fee) + incremental@ * weight,
                    v,
                    w,
                    incremental@ as int,
                    4000,
                    gained,
                    more,
                    weight,
                    heavier,
                );
            }
        }
    }

    /// Where a selection does not cover the target and ancestors can be dragged in, no valid
    /// selection below it scores less than its bound.
    pub proof fn unfunded_bound_holds(self, state: SelectionState, t: Seq<bool>)
        requires
            state.wf(),
            self.accepts(state.problem),
            state.extended_by(t),
            self.score_of(state.problem, t) is Some,
        ensures
            self.unfunded_bound_with_ancestors(state) <= self.score_of(state.problem, t)->0,
    {
        let p = state.problem;
        let none = DrainWeights::spec_none();
        self.score_is_a_fee(p, t);
        self.no_score_below_the_fee_floor(state, t);
        self.owed_falls_with_the_bump(state, t, none);
        self.covering_the_target_takes_weight(state, t);
        let fee = p.target.fee;
        let weight = p.tx_weight(state.selected, none) + self.added_weight(state);
        let heavier = p.tx_weight(t, none);
        p.fees_bounded(t, none);
        p.fees_bounded(state.selected, none);
        fee.rate.fee_monotone(weight, heavier);
        fee.rate.fee_wu_at_most_fee(weight);
        if let Some(replace) = fee.replace {
            replace.incremental_relay_feerate.fee_monotone(weight, heavier);
            replace.incremental_relay_feerate.fee_wu_at_most_fee(weight);
        }
    }
}

impl LowestFee {
    /// Whether the bound of a node is known to hold for a selection below it. Where the selection
    /// of the node covers the target, it has change, or what it owes grows at least at the target
    /// rate and change pays for its weight in spite of rounding. Where it does not, there are
    /// ancestors, or taking candidates in order covers the target before it weighs more than the
    /// selection below, or they come by descending value per weight unit, something that the target
    /// asks leads, and rounding adds no more while they are taken than it does to that selection.
    pub open spec fn is_trusted(self, state: SelectionState, t: Seq<bool>) -> bool {
        let p = state.problem;
        if p.funded(state.selected, Drain::spec_none()) {
            self.change_value(p, state.selected) is Some || {
                &&& Self::grows_at_the_rate(p, state.selected)
                &&& self.change_pays(state)
            }
        } else {
            lowest_fee::has_ancestors(p) || {
                &&& greedy_bound::by_density(state)
                &&& greedy_bound::is_led(state)
                &&& greedy_bound::rounds_no_more(state, t)
            } || greedy_bound::completed_by(state, t)
        }
    }

    /// The bound of a node is a lower bound on the score of every valid selection below it for
    /// which it is trusted.
    pub proof fn bound_holds(self, state: SelectionState, t: Seq<bool>)
        requires
            state.wf(),
            self.accepts(state.problem),
            state.extended_by(t),
            self.score_of(state.problem, t) is Some,
            self.is_trusted(state, t),
        ensures
            self.bound_of(state) is Some,
            self.bound_of(state)->0 <= self.score_of(state.problem, t)->0,
    {
        let p = state.problem;
        let s = state.selected;
        let none = DrainWeights::spec_none();
        self.score_is_a_fee(p, t);
        p.weight_monotone(s, t, none);
        p.selection_bounded(s);
        p.fees_bounded(s, none);
        p.fees_bounded(s, self.drain_weights);
        p.lower_bound_bounded(s, state.reachable());
        self.rates_fit(p);
        self.no_score_below_the_fee_floor(state, t);
        if p.funded(s, Drain::spec_none()) {
            if self.change_value(p, s) is Some {
                self.change_is_not_worth_dropping(state, t);
            } else {
                self.adding_change_saves_no_more(state, t);
            }
            self.owed_falls_with_the_bump(state, t, none);
        } else if lowest_fee::has_ancestors(p) {
            self.unfunded_bound_holds(state, t);
        } else {
            if greedy_bound::completed_by(state, t) {
                self.completion_bounds(state, t);
            } else {
                self.greedy_bound_holds_exactly(state, t);
            }
        }
    }

    /// The bound is admissible on a tree where it is trusted everywhere.
    pub proof fn trusted_means_admissible(self, root: SelectionState)
        requires
            root.wf(),
            self.accepts(root.problem),
            forall|s: SelectionState, t: Seq<bool>|
                #![trigger s.extended_by(t)]
                root.reaches(s) && s.extended_by(t) && self.score_of(root.problem, t) is Some
                    ==> self.is_trusted(s, t),
        ensures
            self.metric_model().admissible(root),
    {
        let m = self.metric_model();
        assert forall|s: SelectionState, t: Seq<bool>|
            #![trigger s.extended_by(t), (m.bound)(s)]
            root.reaches(s) && s.extended_by(t) && (m.score)(root.problem, t) is Some implies {
            &&& (m.bound)(s) is Some
            &&& (m.bound)(s)->0 <= (m.score)(root.problem, t)->0
        } by {
            self.bound_holds(s, t);
        }
    }

    /// With unconfirmed ancestors, where what is owed grows with weight and change pays for its
    /// weight in spite of rounding, the bound of every node is trusted.
    pub proof fn trusted_with_ancestors(self, root: SelectionState, s: SelectionState, t: Seq<bool>)
        requires
            self.accepts(root.problem),
            lowest_fee::has_ancestors(root.problem),
            grows_with_weight(root.problem),
            self.change_pays(root),
            root.reaches(s),
        ensures
            self.is_trusted(s, t),
    {
        grows(root.problem, s.selected);
        assert forall|c: int| 0 <= c < s.problem.n() && #[trigger] s.undecided(c) implies root.undecided(
            c,
        ) by {}
    }

    /// With unconfirmed ancestors, where what is owed grows with weight and change pays for its
    /// weight in spite of rounding, the bound is admissible.
    pub proof fn admissible_with_ancestors(self, root: SelectionState)
        requires
            root.wf(),
            self.accepts(root.problem),
            lowest_fee::has_ancestors(root.problem),
            grows_with_weight(root.problem),
            self.change_pays(root),
        ensures
            self.metric_model().admissible(root),
    {
        assert forall|s: SelectionState, t: Seq<bool>|
            #![trigger s.extended_by(t)]
            root.reaches(s) && s.extended_by(t) && self.score_of(root.problem, t) is Some implies self.is_trusted(
            s,
            t,
        ) by {
            self.trusted_with_ancestors(root, s, t);
        }
        self.trusted_means_admissible(root);
    }

    /// Candidates that look alike can take each other's place without changing the score.
    pub proof fn score_is_symmetric(self, p: ProblemView)
        ensures
            self.metric_model().symmetric(p),
    {
        let m = self.metric_model();
        assert forall|t: Seq<bool>, i: int, j: int|
            t.len() == p.n() && 0 <= i < p.n() && 0 <= j < p.n() && bnb::look_alike(p, i, j) && t[i]
                && !t[j] implies (m.score)(p, #[trigger] bnb::swapped(t, i, j)) == (m.score)(p, t) by {
            p.look_alikes_are_interchangeable(t, i, j);
        }
    }
}

/// A gap that is closed by so much value for so much weight takes at least the weight that the
/// densest candidate takes to close it.
proof fn closes_the_gap(
    deficit: int,
    v: int,
    w: int,
    rate: int,
    unit: int,
    gained: int,
    more: int,
    weight: int,
    heavier: int,
)
    requires
        0 <= more,
        more == heavier - weight,
        0 < w,
        0 < unit,
        gained * w <= v * more,
        unit * gained >= deficit + rate * more,
    ensures
        0 <= lowest_fee::weight_for(deficit, w, unit * v - rate * w) <= more,
{
    let gain = unit * v - rate * w;
    if deficit > 0 && gain > 0 {
        assert(unit * (gained * w) >= deficit * w + rate * more * w) by (nonlinear_arith)
            requires
                unit * gained >= deficit + rate * more,
                0 < w,
        ;
        assert(unit * (gained * w) <= unit * (v * more)) by (nonlinear_arith)
            requires
                gained * w <= v * more,
                0 < unit,
        ;
        assert(gain * more == unit * (v * more) - rate * more * w) by (nonlinear_arith)
            requires
                gain == unit * v - rate * w,
        ;
        assert(0 <= deficit * w) by (nonlinear_arith)
            requires
                0 < deficit,
                0 < w,
        ;
        assert(0 <= (deficit * w) / gain <= more) by (nonlinear_arith)
            requires
                0 <= deficit * w <= gain * more,
                0 < gain,
        ;
    }
}

/// Whether undecided candidate `c` is the densest of the first `k` candidates.
spec fn is_densest_below(state: SelectionState, c: int, k: int) -> bool {
    let candidates = state.problem.candidates;
    &&& 0 <= c < k
    &&& state.undecided(c)
    &&& candidates[c].weight > 0
    &&& forall|d: int|
        0 <= d < k && #[trigger] state.undecided(d) && candidates[d].weight > 0
            ==> candidates[d].value * candidates[c].weight <= candidates[c].value
            * candidates[d].weight
}

/// Among candidates of which some weigh something, one is the densest.
proof fn densest_exists(state: SelectionState, k: int)
    requires
        0 <= k <= state.problem.n(),
    ensures
        (exists|c: int| is_densest_below(state, c, k)) || forall|c: int|
            0 <= c < k && #[trigger] state.undecided(c) ==> state.problem.candidates[c].weight == 0,
    decreases k,
{
    if k > 0 {
        let candidates = state.problem.candidates;
        let last = k - 1;
        densest_exists(state, last);
        if state.undecided(last) && candidates[last].weight > 0 {
            let (y, x) = (candidates[last].value as int, candidates[last].weight as int);
            if exists|c: int| is_densest_below(state, c, last) {
                let c = choose|c: int| is_densest_below(state, c, last);
                let (v, w) = (candidates[c].value as int, candidates[c].weight as int);
                if y * w <= v * x {
                    assert(is_densest_below(state, c, k));
                } else {
                    assert forall|d: int|
                        0 <= d < k && #[trigger] state.undecided(d) && candidates[d].weight
                            > 0 implies candidates[d].value * x <= y * candidates[d].weight by {
                        if d < k - 1 {
                            let (q, z) = (
                                candidates[d].value as int,
                                candidates[d].weight as int,
                            );
                            assert(q * x <= y * z) by (nonlinear_arith)
                                requires
                                    q * w <= v * z,
                                    v * x < y * w,
                                    0 < w,
                                    0 < x,
                                    0 < z,
                            ;
                        }
                    }
                    assert(is_densest_below(state, last, k));
                }
            } else {
                assert(is_densest_below(state, last, k));
            }
        } else if exists|c: int| is_densest_below(state, c, last) {
            let c = choose|c: int| is_densest_below(state, c, last);
            assert(is_densest_below(state, c, k));
        }
    }
}

/// No selection below a node gains more value per weight unit than the densest undecided candidate
/// has.
proof fn densest_limits_gain(state: SelectionState, t: Seq<bool>)
    requires
        state.wf(),
        state.extended_by(t),
        !state.weightless_value_left(),
    ensures
        ({
            let p = state.problem;
            let (v, w) = lowest_fee::densest(state);
            &&& 0 <= v
            &&& 0 < w
            &&& (p.value_of(t) - p.value_of(state.selected)) * w <= v * (p.weight_of(t)
                - p.weight_of(state.selected))
        }),
{
    let p = state.problem;
    let s = state.selected;
    let (v, w) = lowest_fee::densest(state);
    let value_at = |c: int| p.candidates[c].value as int;
    let weight_at = |c: int| p.candidates[c].weight as int;
    let added = Seq::new(t.len(), |c: int| t[c] && !s[c]);
    sums::lemma_over_split(t, s, added, value_at);
    sums::lemma_over_split(t, s, added, weight_at);
    densest_exists(state, p.n());
    if exists|c: int| is_densest_below(state, c, p.n()) {
        let c = choose|c: int| is_densest_below(state, c, p.n());
        assert(lowest_fee::is_densest(state, c));
    }
    let scaled_value = |c: int| w * value_at(c) + 0 * value_at(c);
    let scaled_weight = |c: int| v * weight_at(c) + 0 * weight_at(c);
    sums::lemma_over_linear(added, value_at, value_at, scaled_value, w, 0);
    sums::lemma_over_linear(added, weight_at, weight_at, scaled_weight, v, 0);
    assert forall|c: int| 0 <= c < added.len() && added[c] implies #[trigger] scaled_value(c)
        <= scaled_weight(c) by {
        assert(state.undecided(c));
        let (x, y) = (value_at(c), weight_at(c));
        assert(w * x + 0 * x == x * w) by (nonlinear_arith);
        assert(v * y + 0 * y == v * y) by (nonlinear_arith);
        if y == 0 {
            assert(x == 0);
            assert(0 * w == 0 && v * 0 == 0) by (nonlinear_arith);
        } else {
            assert(exists|c: int| lowest_fee::is_densest(state, c));
        }
    }
    sums::lemma_over_terms_le(added, scaled_value, scaled_weight);
    let (x, y) = (p.value_of(t) - p.value_of(s), p.weight_of(t) - p.weight_of(s));
    assert(w * x + 0 * x == x * w) by (nonlinear_arith);
    assert(v * y + 0 * y == v * y) by (nonlinear_arith);
}

/// Whether what is owed without change always grows with weight at least at the target rate: the
/// absolute fee is never more than what is asked for weight, and a replacement asks for a feerate
/// that is no lower than the target's, or never for more than that asks for.
pub open spec fn grows_with_weight(p: ProblemView) -> bool {
    let fee = p.target.fee;
    let least = greedy_bound::lightest(p);
    &&& fee.absolute <= model::max(fee.rate.fee(least), fee.replacement_fee(least))
    &&& fee.replace matches Some(replace) ==> replace.incremental_relay_feerate@ >= fee.rate@
        || greedy_bound::rate_ask(p).outweighs(greedy_bound::replacement_ask(replace), p)
}

/// Where what is owed always grows with weight at the target rate, it does so for every selection.
pub proof fn grows(p: ProblemView, s: Seq<bool>)
    requires
        s.len() == p.n(),
        grows_with_weight(p),
    ensures
        LowestFee::grows_at_the_rate(p, s),
{
    let none = DrainWeights::spec_none();
    let weight = p.tx_weight(s, none);
    let least = greedy_bound::lightest(p);
    p.selection_bounded(s);
    p.fees_bounded(s, none);
    p.target.fee.rate.fee_monotone(least, weight);
    if let Some(replace) = p.target.fee.replace {
        replace.incremental_relay_feerate.fee_monotone(least, weight);
        let (ask, other) = (greedy_bound::rate_ask(p), greedy_bound::replacement_ask(replace));
        if ask.outweighs(other, p) {
            assert(other.owed(weight) <= ask.owed(weight));
        }
    }
}

/// Whether candidates are ordered by descending value per weight unit.
pub open spec fn is_ordered(root: SelectionState) -> bool {
    forall|i: int, j: int|
        0 <= i < j < root.order.len() ==> !Candidate::denser(
            root.problem.candidates[#[trigger] root.order[j] as int],
            root.problem.candidates[#[trigger] root.order[i] as int],
        )
}

/// What holds between any two entries of a sequence, the earlier one first, holds between any two
/// that a filter keeps.
proof fn filter_keeps_pairs(
    s: Seq<usize>,
    keep: spec_fn(usize) -> bool,
    relation: spec_fn(usize, usize) -> bool,
)
    requires
        forall|i: int, j: int|
            0 <= i < j < s.len() ==> relation(#[trigger] s[i], #[trigger] s[j]),
    ensures
        forall|i: int, j: int|
            0 <= i < j < s.filter(keep).len() ==> relation(
                #[trigger] s.filter(keep)[i],
                #[trigger] s.filter(keep)[j],
            ),
    decreases s.len(),
{
    reveal(Seq::filter);
    if s.len() > 0 {
        let rest = s.drop_last();
        filter_keeps_pairs(rest, keep, relation);
        let kept = rest.filter(keep);
        assert forall|i: int, j: int| 0 <= i < j < s.filter(keep).len() implies relation(
            #[trigger] s.filter(keep)[i],
            #[trigger] s.filter(keep)[j],
        ) by {
            if j == kept.len() {
                rest.lemma_filter_contains_rev(keep, kept[i]);
                let k = choose|k: int| 0 <= k < rest.len() && rest[k] == kept[i];
                assert(relation(s[k], s[s.len() - 1]));
            } else {
                assert(relation(kept[i], kept[j]));
            }
        }
    }
}

/// Where candidates are ordered by descending value per weight unit, what is undecided at any node
/// is too.
pub proof fn ordered_means_by_density(root: SelectionState, s: SelectionState)
    requires
        is_ordered(root),
        root.reaches(s),
    ensures
        greedy_bound::by_density(s),
{
    let p = root.problem;
    let u = s.unselected();
    let relation = |a: usize, b: usize|
        !Candidate::denser(p.candidates[b as int], p.candidates[a as int]);
    filter_keeps_pairs(s.order, |c: usize| s.undecided(c as int), relation);
    assert forall|i: int, j: int| 0 <= i < j < u.len() implies !Candidate::denser(
        p.candidates[#[trigger] u[j] as int],
        p.candidates[#[trigger] u[i] as int],
    ) by {
        assert(relation(u[i], u[j]));
    }
}

impl LowestFee {
    /// A node that covers the target bounds every valid selection without change below it, whatever
    /// the target asks.
    pub proof fn funded_bound_holds_without_change(self, state: SelectionState, t: Seq<bool>)
        requires
            state.wf(),
            self.accepts(state.problem),
            state.extended_by(t),
            state.problem.funded(state.selected, Drain::spec_none()),
            self.score_of(state.problem, t) is Some,
            self.change_value(state.problem, t) is None,
        ensures
            self.bound_of(state) is Some,
            self.bound_of(state)->0 <= self.score_of(state.problem, t)->0,
    {
        let p = state.problem;
        let s = state.selected;
        let none = DrainWeights::spec_none();
        self.score_is_a_fee(p, t);
        p.weight_monotone(s, t, none);
        p.sums_monotone(s, t);
        p.selection_bounded(s);
        p.fees_bounded(s, none);
        p.fees_bounded(t, none);
        p.fees_bounded(s, self.drain_weights);
        p.lower_bound_bounded(s, state.reachable());
        self.rates_fit(p);
        self.no_score_below_the_fee_floor(state, t);
        self.owed_falls_with_the_bump(state, t, none);
        self.long_term_feerate.fee_wu_at_most_fee(0);
        if self.change_value(p, s) is Some {
            self.change_is_not_worth_dropping(state, t);
        } else {
            assert(self.long_term_fee(p, s) == p.fee_paid(s, 0));
        }
    }
}

/// A search that sorts the candidates takes them by descending value per weight unit.
pub proof fn sorted_search_is_ordered(state: SelectionState, root: SelectionState)
    requires
        bnb_iter::searched_from(state, root, true),
    ensures
        is_ordered(root),
{
    let positions = choose|positions: Seq<usize>|
        {
            &&& #[trigger] state.reordered(root, positions)
            &&& sort::in_order(positions, |p: usize, q: usize| state.ranks_before(p, q))
        };
    assert forall|i: int, j: int| 0 <= i < j < root.order.len() implies !Candidate::denser(
        root.problem.candidates[#[trigger] root.order[j] as int],
        root.problem.candidates[#[trigger] root.order[i] as int],
    ) by {
        let (p, q) = (positions[i], positions[j]);
        assert(state.ranks_before(p, q) || !state.ranks_before(q, p));
        assert(state.item(p).1 == root.problem.candidates[root.order[i] as int]);
        assert(state.item(q).1 == root.problem.candidates[root.order[j] as int]);
    }
}

} // verus!
