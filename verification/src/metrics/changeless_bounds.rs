//! How far the bound of the changeless lowest-fee metric can be trusted.
use crate::bitset;
use crate::bnb;
use crate::bnb::{Goal, Score};
use crate::bnb_iter;
use crate::drain::{Drain, DrainWeights};
use crate::errors::NoBnbSolution;
use crate::feerate;
use crate::feerate::FeeRate;
use crate::metrics::exact_bounds;
use crate::metrics::greedy_bound;
use crate::metrics::greedy_bound::Ask;
use crate::metrics::lowest_fee;
use crate::metrics::lowest_fee_bounds;
use crate::metrics::lowest_fee_changeless;
use crate::metrics::lowest_fee_changeless::LowestFeeChangeless;
use crate::metrics::near_bounds;
use crate::model;
use crate::model::{ProblemView, SelectionState};
use crate::search;
use crate::sums;
use vstd::prelude::*;

verus! {

/// Whether every candidate is a single input, and no replacement asks for a higher feerate than the
/// target does.
pub open spec fn overhead_is_bounded(p: ProblemView) -> bool {
    &&& forall|c: int|
        0 <= c < p.n() ==> (#[trigger] p.candidates[c]).segwit_count + p.candidates[c].legacy_count
            <= 1
    &&& p.target.fee.replace matches Some(replace) ==> replace.incremental_relay_feerate@
        <= p.target.fee.rate@
}

/// Whether framing stays the same below a selection that is worth something: inputs are framed at
/// once, and they are legacy inputs, or a segwit input is selected before anything of value is.
pub open spec fn keeps_framing(state: SelectionState) -> bool {
    &&& exact_bounds::is_framed_at_once(state)
    &&& {
        ||| exact_bounds::is_all_legacy(state)
        ||| state.problem.segwit_of(state.selected) > 0
        ||| state.problem.value_of(state.selected) == 0
    }
}

/// Whether excess that is above all that framing can take never falls where every undecided
/// candidate is worth more than its weight costs: the weight limit leaves no say to excess, or
/// inputs are single and no replacement asks for a higher feerate, or framing stays the same, a
/// replacement agrees on what is worth having, and its feerate is not so high that rounding alone
/// takes more than framing could, unless rounding adds the same everywhere.
pub open spec fn is_firm(state: SelectionState) -> bool {
    let p = state.problem;
    ||| p.target.max_weight is Some
    ||| overhead_is_bounded(p)
    ||| {
        &&& keeps_framing(state)
        &&& p.target.fee.replace matches Some(replace) ==> {
            &&& greedy_bound::rate_ask(p).agrees(greedy_bound::replacement_ask(replace), state)
            &&& exact_bounds::is_plain(state) || 4 * replace.incremental_relay_feerate@
                <= p.target.fee.rate@ * lowest_fee_changeless::future_overhead(p)
        }
    }
}

/// What is firm stays so further down.
proof fn firm_below(root: SelectionState, state: SelectionState)
    requires
        root.wf(),
        state.wf(),
        is_firm(root),
        exact_bounds::narrows(root, state),
    ensures
        is_firm(state),
{
    let p = root.problem;
    if let Some(replace) = p.target.fee.replace {
        let (ask, other) = (greedy_bound::rate_ask(p), greedy_bound::replacement_ask(replace));
        if ask.agrees(other, root) {
            assert(ask.agrees(other, state));
        }
    }
    if keeps_framing(root) {
        exact_bounds::framed_below(root, state);
        exact_bounds::framing_is_added_at_once(root, state.selected);
    }
}

/// What is worth selecting at the target rate brings more than its weight costs there.
proof fn worth_selecting_gains(state: SelectionState)
    requires
        state.all_worth_selecting(),
    ensures
        forall|c: int|
            0 <= c < state.problem.n() && #[trigger] state.undecided(c) ==> greedy_bound::rate_ask(
                state.problem,
            ).gain(state.problem.candidates[c]) > 0,
{
    let p = state.problem;
    assert forall|c: int| 0 <= c < p.n() && #[trigger] state.undecided(c) implies greedy_bound::rate_ask(
        p,
    ).gain(p.candidates[c]) > 0 by {
        let (w, rate) = (p.candidates[c].weight as int, p.target.fee.rate@ as int);
        assert(w * rate == rate * w) by (nonlinear_arith);
    }
}

/// Where every undecided candidate brings what its weight costs, so does all that is added.
proof fn added_pays(state: SelectionState, t: Seq<bool>, ask: Ask)
    requires
        state.wf(),
        state.extended_by(t),
        forall|c: int|
            0 <= c < state.problem.n() && #[trigger] state.undecided(c) ==> ask.gain(
                state.problem.candidates[c],
            ) >= 0,
    ensures
        ({
            let p = state.problem;
            4000 * (p.value_of(t) - p.value_of(state.selected)) >= ask.rate@ * (p.weight_of(t)
                - p.weight_of(state.selected))
        }),
{
    let p = state.problem;
    let s = state.selected;
    let rate = ask.rate@ as int;
    let value_at = |c: int| p.candidates[c].value as int;
    let weight_at = |c: int| p.candidates[c].weight as int;
    let added = Seq::new(t.len(), |c: int| t[c] && !s[c]);
    sums::lemma_over_split(t, s, added, value_at);
    sums::lemma_over_split(t, s, added, weight_at);
    let h = |c: int| 4000 * value_at(c) + (-rate) * weight_at(c);
    sums::lemma_over_linear(added, value_at, weight_at, h, 4000, -rate);
    assert forall|c: int| 0 <= c < added.len() && added[c] implies #[trigger] h(c) >= 0 by {
        assert(state.undecided(c));
        let w = weight_at(c);
        assert(rate * w + (-rate) * w == 0) by (nonlinear_arith);
    }
    sums::lemma_over_terms_le(added, |c: int| 0int, h);
    sums::lemma_sum_zero(
        added.len() as int,
        |c: int| if added[c] { (|c: int| 0int)(c) } else { 0 },
    );
    let more = p.weight_of(t) - p.weight_of(s);
    assert((-rate) * more + rate * more == 0) by (nonlinear_arith);
}

/// A selection of single inputs has no more inputs than there are candidates.
proof fn inputs_are_few(p: ProblemView, t: Seq<bool>)
    requires
        t.len() == p.n(),
        overhead_is_bounded(p),
    ensures
        p.segwit_of(t) + p.legacy_of(t) <= p.n(),
        0 <= p.segwit_of(t),
        0 <= p.legacy_of(t),
{
    let segwit_at = |c: int| p.candidates[c].segwit_count as int;
    let legacy_at = |c: int| p.candidates[c].legacy_count as int;
    let both = |c: int| segwit_at(c) + legacy_at(c);
    assert forall|c: int| 0 <= c < p.n() implies #[trigger] both(c) == 1 * segwit_at(c) + 1
        * legacy_at(c) by {}
    sums::lemma_over_linear(t, segwit_at, legacy_at, both, 1, 1);
    sums::lemma_over_terms_le(t, both, |c: int| 1int);
    p.selection_bounded(t);
    bitset::size_bounded(t, t);
    sums::lemma_sum_ext(
        t.len() as int,
        |c: int| if t[c] { (|c: int| 1int)(c) } else { 0 },
        |c: int| if t[c] { 1int } else { 0 },
    );
}

/// What a fee grows by when the weight does is covered by value that pays for the most part of that
/// weight and by the fee on `rest`, if that covers the other part and the rounding to whole vbytes.
proof fn fee_growth_is_covered(
    rate: FeeRate,
    other: FeeRate,
    lighter: int,
    heavier: int,
    paid_for: int,
    rest: int,
    value: int,
)
    requires
        rate@ * (heavier - lighter - paid_for + 4) <= other@ * rest,
        4000 * value >= rate@ * paid_for,
    ensures
        rate.fee(heavier) <= rate.fee(lighter) + value + other.fee_wu(rest),
{
    let (r, unpaid) = (rate@ as int, heavier - lighter - paid_for + 4);
    let (u, v) = (feerate::ceil(lighter, 4), feerate::ceil(heavier, 4));
    assert(4 * (v * r) <= 4 * (u * r) + r * paid_for + r * unpaid) by (nonlinear_arith)
        requires
            4 * v <= 4 * u + paid_for + unpaid,
            0 <= r,
    ;
    assert(rest * other@ == other@ * rest) by (nonlinear_arith);
}

/// A lower feerate asks no more for any weight.
proof fn lower_rate_asks_less(lower: int, rate: int, unpaid: int, more: int, rest: int)
    requires
        0 <= lower <= rate,
        0 <= more,
        unpaid <= rest,
        0 <= rest,
    ensures
        lower * unpaid <= rate * rest,
        lower * more <= rate * more,
{
    assert(lower * unpaid <= lower * rest) by (nonlinear_arith)
        requires
            unpaid <= rest,
            0 <= lower,
    ;
    assert(lower * rest <= rate * rest && lower * more <= rate * more) by (nonlinear_arith)
        requires
            lower <= rate,
            0 <= rest,
            0 <= more,
    ;
}

impl LowestFeeChangeless {
    /// What a selection without change is worth beyond the target bounds all below it: no valid
    /// selection that extends it scores less.
    pub proof fn no_change_fee_holds(self, state: SelectionState, t: Seq<bool>)
        requires
            state.wf(),
            self.accepts(state.problem),
            state.extended_by(t),
            self.score_of(state.problem, t) is Some,
        ensures
            model::max(state.problem.fee_paid(state.selected, 0), 0) <= self.score_of(
                state.problem,
                t,
            )->0,
            self.score_of(state.problem, t) == self.spec_lowest_fee().score_of(state.problem, t),
    {
        let p = state.problem;
        p.sums_monotone(state.selected, t);
        p.selection_bounded(t);
        p.fees_bounded(t, DrainWeights::spec_none());
        self.long_term_feerate.fee_wu_at_most_fee(0);
    }

    /// Where a selection has overshot the window in which it needs no change, every selection below
    /// it has too, and so none of them is valid: as long as excess cannot fall again through
    /// framing or through what a replacement asks.
    pub proof fn overshot_for_good(self, state: SelectionState, t: Seq<bool>)
        requires
            state.wf(),
            self.accepts(state.problem),
            state.extended_by(t),
            self.overshot(state),
            is_firm(state),
        ensures
            self.score_of(state.problem, t) is None,
    {
        let p = state.problem;
        let s = state.selected;
        let fee = p.target.fee;
        p.sums_monotone(s, t);
        p.no_ancestors_no_bump(s);
        p.no_ancestors_no_bump(t);
        p.selection_bounded(s);
        p.fees_bounded(s, self.drain_weights);
        worth_selecting_gains(state);
        let gained = p.value_of(t) - p.value_of(s);
        let more = p.weight_of(t) - p.weight_of(s);
        let (lighter, heavier) = (
            p.tx_weight(s, self.drain_weights),
            p.tx_weight(t, self.drain_weights),
        );
        let rest = lowest_fee_changeless::future_overhead(p);
        fee.rate.fee_wu_at_most_fee(rest);
        if overhead_is_bounded(p) {
            added_pays(state, t, greedy_bound::rate_ask(p));
            inputs_are_few(p, s);
            inputs_are_few(p, t);
            assert(heavier <= lighter + more + rest - 4);
            let (rate, unpaid) = (fee.rate@ as int, heavier - lighter - more + 4);
            assert(rate * unpaid <= rate * rest) by (nonlinear_arith)
                requires
                    unpaid <= rest,
                    0 <= rate,
            ;
            fee_growth_is_covered(fee.rate, fee.rate, lighter, heavier, more, rest, gained);
            if let Some(replace) = fee.replace {
                let other = replace.incremental_relay_feerate;
                p.weight_monotone(s, t, self.drain_weights);
                lower_rate_asks_less(other@ as int, rate, unpaid, more, rest);
                fee_growth_is_covered(other, fee.rate, lighter, heavier, more, rest, gained);
            }
        } else {
            let ask = greedy_bound::rate_ask(p);
            assert(greedy_bound::asks(p, ask));
            exact_bounds::framing_is_added_at_once(state, s);
            exact_bounds::framing_is_added_at_once(state, t);
            assert(heavier == lighter + more);
            added_pays(state, t, ask);
            let rate = fee.rate@ as int;
            assert(rate * 4 <= rate * rest) by (nonlinear_arith)
                requires
                    4 <= rest,
                    0 <= rate,
            ;
            fee_growth_is_covered(fee.rate, fee.rate, lighter, heavier, more, rest, gained);
            if let Some(replace) = fee.replace {
                let other = greedy_bound::replacement_ask(replace);
                assert(greedy_bound::asks(p, other));
                added_pays(state, t, other);
                if exact_bounds::is_plain(state) {
                    exact_bounds::added_is_whole(state, t, other);
                    exact_bounds::whole_step(other.rate, lighter, more);
                } else {
                    assert(other.rate@ * (heavier - lighter - more + 4) == 4 * other.rate@)
                        by (nonlinear_arith)
                        requires
                            heavier == lighter + more,
                    ;
                    fee_growth_is_covered(
                        other.rate,
                        fee.rate,
                        lighter,
                        heavier,
                        more,
                        rest,
                        gained,
                    );
                }
            }
        }
        assert(p.excess(t, self.spec_lowest_fee().empty_drain()) > self.excess_ceiling());
    }

    /// Whether the bound of a node is known to hold for a selection below it. A node that covers
    /// the target always bounds what has no change.
    pub open spec fn is_trusted(self, state: SelectionState, t: Seq<bool>) -> bool {
        &&& state.problem.funded(state.selected, Drain::spec_none())
            || self.spec_lowest_fee().is_trusted(state, t)
        &&& self.overshot(state) ==> is_firm(state)
    }

    /// The bound of a node is a lower bound on the score of every valid selection below it for
    /// which it is trusted.
    pub proof fn bound_holds(self, state: SelectionState, t: Seq<bool>)
        requires
            state.wf(),
            self.accepts(state.problem),
            state.extended_by(t),
            self.score_of(state.problem, t) is Some,
            self.is_trusted(state, t),
        ensures
            self.bound_of(state) is Some,
            self.bound_of(state)->0 <= self.score_of(state.problem, t)->0,
    {
        let p = state.problem;
        if self.overshot(state) {
            self.overshot_for_good(state, t);
        }
        self.no_change_fee_holds(state, t);
        if p.funded(state.selected, Drain::spec_none()) {
            self.spec_lowest_fee().funded_bound_holds_without_change(state, t);
        } else {
            self.spec_lowest_fee().bound_holds(state, t);
        }
        p.selection_bounded(state.selected);
    }

    /// The bound is admissible on a tree where it is trusted everywhere.
    pub proof fn trusted_means_admissible(self, root: SelectionState)
        requires
            root.wf(),
            self.accepts(root.problem),
            forall|s: SelectionState, t: Seq<bool>|
                #![trigger s.extended_by(t)]
                root.reaches(s) && s.extended_by(t) && self.score_of(root.problem, t) is Some
                    ==> self.is_trusted(s, t),
        ensures
            self.metric_model().admissible(root),
    {
        let m = self.metric_model();
        assert forall|s: SelectionState, t: Seq<bool>|
            #![trigger s.extended_by(t), (m.bound)(s)]
            root.reaches(s) && s.extended_by(t) && (m.score)(root.problem, t) is Some implies {
            &&& (m.bound)(s) is Some
            &&& (m.bound)(s)->0 <= (m.score)(root.problem, t)->0
        } by {
            self.bound_holds(s, t);
        }
    }

    /// Candidates that look alike can take each other's place without changing the score.
    pub proof fn score_is_symmetric(self, p: ProblemView)
        ensures
            self.metric_model().symmetric(p),
    {
        let m = self.metric_model();
        assert forall|t: Seq<bool>, i: int, j: int|
            t.len() == p.n() && 0 <= i < p.n() && 0 <= j < p.n() && bnb::look_alike(p, i, j) && t[i]
                && !t[j] implies (m.score)(p, #[trigger] bnb::swapped(t, i, j)) == (m.score)(p, t) by {
            p.look_alikes_are_interchangeable(t, i, j);
        }
    }
}

impl LowestFeeChangeless {
    /// Where rounding cannot mislead it, candidates are ordered by descending value per weight unit
    /// and excess that has overshot does not fall again, the bound is admissible.
    pub proof fn admissible_where_exact(self, root: SelectionState)
        requires
            root.wf(),
            self.accepts(root.problem),
            exact_bounds::is_exact(root),
            lowest_fee_bounds::is_ordered(root),
            is_firm(root),
        ensures
            self.metric_model().admissible(root),
    {
        assert forall|s: SelectionState, t: Seq<bool>|
            #![trigger s.extended_by(t)]
            root.reaches(s) && s.extended_by(t) && self.score_of(root.problem, t) is Some implies self.is_trusted(
            s,
            t,
        ) by {
            self.no_change_fee_holds(s, t);
            exact_bounds::nodes_narrow(root, s);
            firm_below(root, s);
            if !root.problem.funded(s.selected, Drain::spec_none()) {
                self.spec_lowest_fee().trusted_where_exact(root, s, t);
            }
        }
        self.trusted_means_admissible(root);
    }

    /// With unconfirmed ancestors the bound is admissible, whatever the target asks.
    pub proof fn admissible_with_ancestors(self, root: SelectionState)
        requires
            root.wf(),
            self.accepts(root.problem),
            lowest_fee::has_ancestors(root.problem),
        ensures
            self.metric_model().admissible(root),
    {
        self.trusted_means_admissible(root);
    }

    /// Branch and bound with enough rounds finds the lowest fee without change, or that no
    /// selection is valid: wherever ancestors are involved, and where rounding cannot mislead the
    /// bound and excess that has overshot does not fall again.
    pub proof fn search_finds_the_lowest_fee(
        self,
        before: SelectionState,
        root: SelectionState,
        deduplicate: bool,
        max_rounds: usize,
        after: SelectionState,
        r: Result<(Score, Drain), NoBnbSolution>,
        t: Seq<bool>,
    )
        requires
            before.wf(),
            self.accepts(before.problem),
            lowest_fee::has_ancestors(before.problem) || {
                &&& exact_bounds::is_exact(before)
                &&& is_firm(before)
            },
            bnb_iter::searched_from(before, root, true),
            bnb_iter::bnb_outcome(
                self.metric_model(),
                before,
                root,
                deduplicate,
                max_rounds,
                after,
                r,
            ),
            max_rounds >= search::tree_size(before),
            before.extended_by(t),
        ensures
            match r {
                Ok((score, _)) => self.score_of(before.problem, t) matches Some(other) ==> score
                    <= other,
                Err(_) => self.score_of(before.problem, t) is None,
            },
    {
        if lowest_fee::has_ancestors(before.problem) {
            self.admissible_with_ancestors(root);
        } else {
            lowest_fee_bounds::sorted_search_is_ordered(before, root);
            exact_bounds::exact_below(before, root);
            firm_below(before, root);
            self.admissible_where_exact(root);
        }
        self.score_is_symmetric(before.problem);
    }

    /// What a search can be held against in spite of rounding: for selections with leeway, their
    /// score and what framing and rounding can cost.
    pub open spec fn near_goal(self, p: ProblemView) -> Goal {
        |t: Seq<bool>|
            match self.score_of(p, t) {
                Some(score) => if near_bounds::has_leeway(p, t) {
                    Some(score + near_bounds::rounding(p, t))
                } else {
                    None
                },
                None => None,
            }
    }

    /// A search that takes candidates by descending value per weight unit can be held against the
    /// scores of selections with leeway, up to what framing and rounding can cost, where something
    /// that the target asks leads and no ancestor is dragged in.
    pub proof fn meets_the_near_goal(self, root: SelectionState, deduplicate: bool)
        requires
            root.wf(),
            self.accepts(root.problem),
            !lowest_fee::has_ancestors(root.problem),
            lowest_fee_bounds::is_ordered(root),
            greedy_bound::is_led(root),
            is_firm(root),
        ensures
            self.metric_model().meets(root, deduplicate, self.near_goal(root.problem)),
    {
        let p = root.problem;
        let m = self.metric_model();
        let goal = self.near_goal(p);
        assert forall|t: Seq<bool>| #[trigger]
            root.extended_by(t) && goal(t) is Some implies self.score_of(p, t)->0 <= goal(t)->0 by {
            near_bounds::rounding_costs(p, t);
        }
        assert forall|s: SelectionState, t: Seq<bool>|
            #![trigger s.extended_by(t), (m.bound)(s)]
            root.reaches(s) && s.extended_by(t) && goal(t) is Some implies {
            &&& (m.bound)(s) is Some
            &&& (m.bound)(s)->0 <= goal(t)->0
        } by {
            lowest_fee_bounds::ordered_means_by_density(root, s);
            greedy_bound::leads_on(root, s);
            exact_bounds::nodes_narrow(root, s);
            firm_below(root, s);
            near_bounds::rounding_costs(p, t);
            if self.overshot(s) {
                self.overshot_for_good(s, t);
            }
            self.no_change_fee_holds(s, t);
            if p.funded(s.selected, Drain::spec_none()) {
                self.spec_lowest_fee().funded_bound_holds_without_change(s, t);
            } else {
                self.spec_lowest_fee().unfunded_bound_nearly_holds(s, t);
            }
            p.selection_bounded(s.selected);
        }
        assert forall|t: Seq<bool>, i: int, j: int|
            t.len() == p.n() && 0 <= i < p.n() && 0 <= j < p.n() && bnb::look_alike(p, i, j) && t[i]
                && !t[j] implies goal(#[trigger] bnb::swapped(t, i, j)) == goal(t) by {
            p.look_alikes_are_interchangeable(t, i, j);
            near_bounds::leeway_is_symmetric(p, t, bnb::swapped(t, i, j));
        }
    }

    /// Branch and bound with enough rounds finds the lowest fee without change up to what framing
    /// and rounding can cost, whatever rates and weights are, where something that the target asks
    /// leads and no ancestor is dragged in: it ends up with no more than any valid selection with
    /// leeway pays and that cost, and with a solution if there is such a selection.
    pub proof fn search_nearly_finds_the_lowest_fee(
        self,
        before: SelectionState,
        root: SelectionState,
        deduplicate: bool,
        max_rounds: usize,
        after: SelectionState,
        r: Result<(Score, Drain), NoBnbSolution>,
        t: Seq<bool>,
    )
        requires
            before.wf(),
            self.accepts(before.problem),
            !lowest_fee::has_ancestors(before.problem),
            greedy_bound::is_led(before),
            is_firm(before),
            bnb_iter::searched_from(before, root, true),
            bnb_iter::bnb_outcome(
                self.metric_model(),
                before,
                root,
                deduplicate,
                max_rounds,
                after,
                r,
            ),
            max_rounds >= search::tree_size(before),
            before.extended_by(t),
            self.score_of(before.problem, t) is Some,
            near_bounds::has_leeway(before.problem, t),
        ensures
            r matches Ok((score, _)) && score <= self.score_of(before.problem, t)->0
                + near_bounds::rounding(before.problem, t),
    {
        lowest_fee_bounds::sorted_search_is_ordered(before, root);
        greedy_bound::leads_on(before, root);
        firm_below(before, root);
        self.meets_the_near_goal(root, deduplicate);
        assert(self.near_goal(root.problem)(t) is Some);
    }
}

} // verus!
