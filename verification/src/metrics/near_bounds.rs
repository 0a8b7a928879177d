//! How much rounding can cost the bound of the lowest-fee metric.
use crate::bitset;
use crate::bnb;
use crate::bnb::{Goal, Score};
use crate::bnb_iter;
use crate::drain::{Drain, DrainWeights};
use crate::errors::NoBnbSolution;
use crate::feerate;
use crate::metrics::greedy_bound;
use crate::metrics::greedy_bound::Ask;
use crate::metrics::lowest_fee;
use crate::metrics::lowest_fee::LowestFee;
use crate::metrics::lowest_fee_bounds;
use crate::model;
use crate::model::{ProblemView, SelectionState};
use crate::search;
use vstd::prelude::*;

verus! {

/// What framing the inputs of any selection weighs at most beyond framing those of `t`.
pub open spec fn framing(p: ProblemView, t: Seq<bool>) -> int {
    greedy_bound::overhead(p, p.everything()) - greedy_bound::overhead(p, t)
}

/// The highest feerate that a target asks for.
pub open spec fn highest_rate(p: ProblemView) -> int {
    match p.target.fee.replace {
        Some(replace) => model::max(
            p.target.fee.rate@ as int,
            replace.incremental_relay_feerate@ as int,
        ),
        None => p.target.fee.rate@ as int,
    }
}

/// What framing, and rounding to whole vbytes and to whole satoshis, can cost any selection beyond
/// what it costs `t`, in 4000ths of a satoshi.
pub open spec fn scaled_rounding(p: ProblemView, t: Seq<bool>) -> int {
    highest_rate(p) * (framing(p, t) + 3) + 3996
}

/// What framing and rounding can cost any selection beyond what they cost `t`, in satoshis.
pub open spec fn rounding(p: ProblemView, t: Seq<bool>) -> int {
    scaled_rounding(p, t) / 4000
}

/// Whether framing and rounding cannot make the difference for `t`: it pays for their cost on top
/// of what is asked for its own weight, and leaves room for the framing up to the weight limit.
pub open spec fn has_leeway(p: ProblemView, t: Seq<bool>) -> bool {
    let weight = p.tx_weight(t, DrainWeights::spec_none());
    &&& forall|ask: Ask| #[trigger]
        greedy_bound::asks(p, ask) ==> 4000 * (p.fee_paid(t, 0) - ask.fixed) >= ask.rate@ * weight
            + scaled_rounding(p, t)
    &&& p.target.max_weight matches Some(max_weight) ==> weight + framing(p, t) <= max_weight
}

/// No framing weighs more than that of every candidate.
proof fn framing_bounded(p: ProblemView, s: Seq<bool>)
    requires
        s.len() == p.n(),
    ensures
        4 <= greedy_bound::overhead(p, s) <= greedy_bound::overhead(p, p.everything()),
{
    p.selection_bounded(s);
    p.selection_bounded(p.everything());
}

/// What framing and rounding can cost is not negative.
pub proof fn rounding_costs(p: ProblemView, t: Seq<bool>)
    requires
        t.len() == p.n(),
    ensures
        0 <= rounding(p, t),
        0 <= scaled_rounding(p, t),
        0 <= framing(p, t),
{
    framing_bounded(p, t);
    assert(0 <= highest_rate(p) * (framing(p, t) + 3)) by (nonlinear_arith)
        requires
            0 <= highest_rate(p),
            0 <= framing(p, t),
    ;
}

/// Selections of the same value, weight and inputs have the same leeway.
pub proof fn leeway_is_symmetric(p: ProblemView, s: Seq<bool>, t: Seq<bool>)
    requires
        p.value_of(s) == p.value_of(t),
        p.weight_of(s) == p.weight_of(t),
        p.segwit_of(s) == p.segwit_of(t),
        p.legacy_of(s) == p.legacy_of(t),
    ensures
        has_leeway(p, s) == has_leeway(p, t),
        rounding(p, s) == rounding(p, t),
{
    let none = DrainWeights::spec_none();
    assert(p.tx_weight(s, none) == p.tx_weight(t, none));
    assert(scaled_rounding(p, s) == scaled_rounding(p, t));
    assert(p.fee_paid(s, 0) == p.fee_paid(t, 0));
    if has_leeway(p, s) {
        assert forall|ask: Ask| #[trigger] greedy_bound::asks(p, ask) implies 4000 * (p.fee_paid(
            t,
            0,
        ) - ask.fixed) >= ask.rate@ * p.tx_weight(t, none) + scaled_rounding(p, t) by {}
    }
    if has_leeway(p, t) {
        assert forall|ask: Ask| #[trigger] greedy_bound::asks(p, ask) implies 4000 * (p.fee_paid(
            s,
            0,
        ) - ask.fixed) >= ask.rate@ * p.tx_weight(s, none) + scaled_rounding(p, s) by {}
    }
}

/// Where `t` has leeway, what is taken stays within what framing and rounding can cost.
proof fn leeway_takes_within(state: SelectionState, t: Seq<bool>)
    requires
        state.wf(),
        state.extended_by(t),
        has_leeway(state.problem, t),
        !lowest_fee::has_ancestors(state.problem),
    ensures
        greedy_bound::takes_within(
            state,
            t,
            |ask: Ask| 0int,
            scaled_rounding(state.problem, t),
            framing(state.problem, t),
        ),
{
    let p = state.problem;
    let none = DrainWeights::spec_none();
    rounding_costs(p, t);
    let most = framing(p, t);
    assert forall|ask: Ask| #[trigger] greedy_bound::asks(p, ask) implies 4000 * (p.fee_owed(t, none)
        - ask.fixed) >= ask.rate@ * p.tx_weight(t, none) + 0 by {
        greedy_bound::fee_covers_the_weight(ask, p, t);
    }
    assert forall|k: int| 0 <= k <= state.unselected().len() implies greedy_bound::overhead(
        p,
        (#[trigger] state.taking(k)).selected,
    ) <= greedy_bound::overhead(p, t) + most by {
        framing_bounded(p, state.taking(k).selected);
    }
    assert forall|ask: Ask, k: int|
        #![trigger greedy_bound::asks(p, ask), state.taking(k)]
        greedy_bound::asks(p, ask) && 0 <= k <= state.unselected().len() implies {
        let s = state.taking(k).selected;
        4000 * ask.rate.fee(p.tx_weight(s, none)) <= ask.rate@ * (p.weight_of(s)
            + greedy_bound::frame(p, t)) + 0 + scaled_rounding(p, t)
    } by {
        let s = state.taking(k).selected;
        framing_bounded(p, s);
        let weight = p.tx_weight(s, none);
        let priced = p.weight_of(s) + greedy_bound::frame(p, t);
        let v = feerate::ceil(weight, 4);
        let (r, h) = (ask.rate@ as int, highest_rate(p));
        assert(4 * (v * r) <= r * priced + r * (most + 3)) by (nonlinear_arith)
            requires
                4 * v <= priced + (most + 3),
                0 <= r,
        ;
        assert(r * (most + 3) <= h * (most + 3)) by (nonlinear_arith)
            requires
                r <= h,
                0 <= most,
        ;
    }
}

impl LowestFee {
    /// Where a selection has no change and what is owed grows with weight, no valid selection below
    /// it scores less than its bound by more than rounding can cost.
    proof fn funded_bound_nearly_holds(self, state: SelectionState, t: Seq<bool>)
        requires
            state.wf(),
            self.accepts(state.problem),
            state.extended_by(t),
            !lowest_fee::has_ancestors(state.problem),
            lowest_fee_bounds::grows_with_weight(state.problem),
            state.problem.funded(state.selected, Drain::spec_none()),
            self.change_value(state.problem, state.selected) is None,
            self.score_of(state.problem, t) is Some,
        ensures
            self.funded_bound(state) <= self.score_of(state.problem, t)->0 + rounding(
                state.problem,
                t,
            ),
    {
        let p = state.problem;
        let s = state.selected;
        let none = DrainWeights::spec_none();
        rounding_costs(p, t);
        self.score_is_a_fee(p, t);
        p.sums_monotone(s, t);
        p.fees_bounded(s, none);
        p.fees_bounded(t, none);
        p.fees_bounded(t, self.drain_weights);
        p.no_ancestors_no_bump(s);
        p.no_ancestors_no_bump(t);
        lowest_fee_bounds::grows(p, s);
        self.long_term_feerate.fee_wu_at_most_fee(0);
        assert(self.long_term_fee(p, s) == p.fee_paid(s, 0));
        if self.change_value(p, t) is Some {
            if forall|c: int| 0 <= c < t.len() ==> t[c] == s[c] {
                assert(t =~= s);
            }
            let c = choose|c: int| 0 <= c < t.len() && t[c] != s[c];
            assert(t[c] && state.undecided(c));
            let one_more = s.update(c, true);
            p.sums_insert(s, c);
            assert(bitset::subset(s, one_more));
            assert(bitset::subset(one_more, t));
            p.sums_monotone(s, one_more);
            p.weight_monotone(one_more, t, self.drain_weights);
            p.weight_monotone(s, t, none);
            assert(p.tx_weight(one_more, self.drain_weights) >= p.tx_weight(s, self.drain_weights)
                + p.candidates[c].weight);
            assert(self.change_reachable(state));
            // What decides at `s` grows at least at the target rate.
            let ask = if p.fee_owed(s, none) == p.rate_fee(s, none) {
                greedy_bound::rate_ask(p)
            } else {
                greedy_bound::replacement_ask(p.target.fee.replace->0)
            };
            let a = self.drain_weights.added_weight(p.target.outputs.n_outputs as int);
            let (w, heavier) = (p.tx_weight(s, none), p.tx_weight(t, self.drain_weights));
            assert(ask.owed(w) == p.fee_owed(s, none));
            assert(ask.owed(heavier) <= p.fee_owed(t, self.drain_weights));
            assert(heavier == p.tx_weight(t, none) + a);
            let (r, q, h) = (p.target.fee.rate@ as int, ask.rate@ as int, highest_rate(p));
            let most = framing(p, t);
            assert(3 * q <= h * (most + 3)) by (nonlinear_arith)
                requires
                    0 <= q <= h,
                    0 <= most,
            ;
            let (v, u) = (feerate::ceil(w, 4), feerate::ceil(heavier, 4));
            assert((4 * v - 3 + a) * q <= (4 * u) * q) by (nonlinear_arith)
                requires
                    4 * v - 3 + a <= 4 * u,
                    0 <= q,
            ;
            assert((4 * v - 3 + a) * q == 4 * (v * q) - 3 * q + a * q) by (nonlinear_arith);
            assert((4 * u) * q == 4 * (u * q)) by (nonlinear_arith);
            assert(a * r <= a * q) by (nonlinear_arith)
                requires
                    r <= q,
                    0 <= a,
            ;
            let b = self.drain_weights.spend_weight * self.long_term_feerate@;
            self.long_term_feerate.fee_wu_at_most_fee(self.drain_weights.spend_weight as int);
            assert(self.change_cost(p) == (a * r + b) / 4000);
            assert(self.drain_weights.future_fee(self.long_term_feerate) == feerate::ceil(b, 4000));
            assert((a * r + b) / 4000 <= (a * r) / 4000 + feerate::ceil(b, 4000));
            let (lighter_fee, heavier_fee) = (ask.rate.fee(w), ask.rate.fee(heavier));
            assert(4000 * lighter_fee <= 4 * (v * q) + 3996);
            assert(4000 * heavier_fee >= 4 * (u * q));
            assert(lighter_fee + (a * r) / 4000 <= heavier_fee + (3 * q + 3996) / 4000);
            assert((3 * q + 3996) / 4000 <= rounding(p, t));
        }
    }

    /// Where a node does not cover the target, its bound is a lower bound, up to what framing and
    /// rounding can cost, on the score of every valid selection below it that has leeway: where
    /// candidates come by descending value per weight unit and something that the target asks
    /// leads, whatever rates and weights are.
    pub proof fn unfunded_bound_nearly_holds(self, state: SelectionState, t: Seq<bool>)
        requires
            state.wf(),
            self.accepts(state.problem),
            state.extended_by(t),
            self.score_of(state.problem, t) is Some,
            !lowest_fee::has_ancestors(state.problem),
            !state.problem.funded(state.selected, Drain::spec_none()),
            greedy_bound::by_density(state),
            greedy_bound::is_led(state),
            has_leeway(state.problem, t),
        ensures
            self.bound_of(state) is Some,
            self.bound_of(state)->0 <= self.score_of(state.problem, t)->0 + rounding(
                state.problem,
                t,
            ),
    {
        let p = state.problem;
        self.score_is_a_fee(p, t);
        p.weight_monotone(state.selected, t, DrainWeights::spec_none());
        rounding_costs(p, t);
        p.fees_bounded(t, DrainWeights::spec_none());
        p.selection_bounded(t);
        leeway_takes_within(state, t);
        self.greedy_bound_holds(state, t, |ask: Ask| 0int, scaled_rounding(p, t), framing(p, t));
    }

    /// The bound of a node is a lower bound, up to what framing and rounding can cost, on the score
    /// of every valid selection below it that has leeway: where candidates come by descending value
    /// per weight unit, something that the target asks leads, and what is owed grows with weight,
    /// whatever rates and weights are.
    pub proof fn bound_nearly_holds(self, state: SelectionState, t: Seq<bool>)
        requires
            state.wf(),
            self.accepts(state.problem),
            state.extended_by(t),
            self.score_of(state.problem, t) is Some,
            !lowest_fee::has_ancestors(state.problem),
            lowest_fee_bounds::grows_with_weight(state.problem),
            greedy_bound::by_density(state),
            greedy_bound::is_led(state),
            has_leeway(state.problem, t),
        ensures
            self.bound_of(state) is Some,
            self.bound_of(state)->0 <= self.score_of(state.problem, t)->0 + rounding(
                state.problem,
                t,
            ),
    {
        let p = state.problem;
        let s = state.selected;
        let none = DrainWeights::spec_none();
        if p.funded(s, Drain::spec_none()) {
            self.score_is_a_fee(p, t);
            p.weight_monotone(s, t, none);
            p.selection_bounded(s);
            p.fees_bounded(s, none);
            p.fees_bounded(s, self.drain_weights);
            rounding_costs(p, t);
            if self.change_value(p, s) is Some {
                self.change_is_not_worth_dropping(state, t);
            } else {
                self.funded_bound_nearly_holds(state, t);
            }
        } else {
            self.unfunded_bound_nearly_holds(state, t);
        }
    }
}

impl LowestFee {
    /// What a search can be held against in spite of rounding: for selections with leeway, their
    /// score and what framing and rounding can cost.
    pub open spec fn near_goal(self, p: ProblemView) -> Goal {
        |t: Seq<bool>|
            match self.score_of(p, t) {
                Some(score) => if has_leeway(p, t) {
                    Some(score + rounding(p, t))
                } else {
                    None
                },
                None => None,
            }
    }

    /// A search that takes candidates by descending value per weight unit can be held against the
    /// scores of selections with leeway, up to what framing and rounding can cost.
    pub proof fn meets_the_near_goal(self, root: SelectionState, deduplicate: bool)
        requires
            root.wf(),
            self.accepts(root.problem),
            !lowest_fee::has_ancestors(root.problem),
            lowest_fee_bounds::grows_with_weight(root.problem),
            greedy_bound::is_led(root),
            lowest_fee_bounds::is_ordered(root),
        ensures
            self.metric_model().meets(root, deduplicate, self.near_goal(root.problem)),
    {
        let p = root.problem;
        let m = self.metric_model();
        let goal = self.near_goal(p);
        assert forall|t: Seq<bool>| #[trigger]
            root.extended_by(t) && goal(t) is Some implies self.score_of(p, t)->0 <= goal(t)->0 by {
            rounding_costs(p, t);
        }
        assert forall|s: SelectionState, t: Seq<bool>|
            #![trigger s.extended_by(t), (m.bound)(s)]
            root.reaches(s) && s.extended_by(t) && goal(t) is Some implies {
            &&& (m.bound)(s) is Some
            &&& (m.bound)(s)->0 <= goal(t)->0
        } by {
            lowest_fee_bounds::ordered_means_by_density(root, s);
            greedy_bound::leads_on(root, s);
            self.bound_nearly_holds(s, t);
        }
        assert forall|t: Seq<bool>, i: int, j: int|
            t.len() == p.n() && 0 <= i < p.n() && 0 <= j < p.n() && bnb::look_alike(p, i, j) && t[i]
                && !t[j] implies goal(#[trigger] bnb::swapped(t, i, j)) == goal(t) by {
            p.look_alikes_are_interchangeable(t, i, j);
            leeway_is_symmetric(p, t, bnb::swapped(t, i, j));
        }
    }

    /// Branch and bound with enough rounds finds the lowest long-term fee up to what framing and
    /// rounding can cost, whatever rates and weights are, where something that the target asks
    /// leads, what is owed grows with weight and no ancestor is dragged in: it ends up with no more
    /// than any valid selection with leeway pays and that cost, and with a solution if there is
    /// such a selection.
    pub proof fn search_nearly_finds_the_lowest_fee(
        self,
        before: SelectionState,
        root: SelectionState,
        deduplicate: bool,
        max_rounds: usize,
        after: SelectionState,
        r: Result<(Score, Drain), NoBnbSolution>,
        t: Seq<bool>,
    )
        requires
            before.wf(),
            self.accepts(before.problem),
            !lowest_fee::has_ancestors(before.problem),
            lowest_fee_bounds::grows_with_weight(before.problem),
            greedy_bound::is_led(before),
            bnb_iter::searched_from(before, root, true),
            bnb_iter::bnb_outcome(
                self.metric_model(),
                before,
                root,
                deduplicate,
                max_rounds,
                after,
                r,
            ),
            max_rounds >= search::tree_size(before),
            before.extended_by(t),
            self.score_of(before.problem, t) is Some,
            has_leeway(before.problem, t),
        ensures
            r matches Ok((score, _)) && score <= self.score_of(before.problem, t)->0 + rounding(
                before.problem,
                t,
            ),
    {
        lowest_fee_bounds::sorted_search_is_ordered(before, root);
        greedy_bound::leads_on(before, root);
        self.meets_the_near_goal(root, deduplicate);
        assert(self.near_goal(root.problem)(t) is Some);
    }
}

} // verus!
