//! When the metrics make change, what they score, and how far their bounds can fall below that.
use crate::bnb::Score;
use crate::candidate::Candidate;
use crate::drain::{Drain, DrainWeights};
use crate::fee_laws;
use crate::feerate::FeeRate;
use crate::metrics::greedy_bound;
use crate::metrics::lowest_fee;
use crate::metrics::lowest_fee::LowestFee;
use crate::metrics::lowest_fee_changeless;
use crate::metrics::lowest_fee_changeless::LowestFeeChangeless;
use crate::model;
use crate::model::{ProblemView, SelectionState};
use crate::problem_laws;
use crate::selection_problem::SelectionProblem;
use crate::target::Target;
use crate::weights;
use vstd::prelude::*;

verus! {

/// Whether a transaction of `weight` is no heavier than the target allows.
pub open spec fn fits_the_limit(target: Target, weight: int) -> bool {
    target.max_weight matches Some(limit) ==> weight <= limit
}

/// The same problem with another weight limit.
pub open spec fn with_limit(p: ProblemView, max_weight: Option<u64>) -> ProblemView {
    ProblemView { target: Target { max_weight, ..p.target }, ..p }
}

impl LowestFee {
    /// Whether change could be made: what it would be worth after paying for its weight is no dust,
    /// and the transaction is not too heavy with it.
    pub open spec fn change_is_allowed(self, p: ProblemView, s: Seq<bool>) -> bool {
        let worth = p.value_of(s) - p.target.outputs.value_sum - p.fee_owed(s, self.drain_weights);
        &&& worth * 4000 >= (self.drain_weights.output_weight + self.drain_weights.spend_weight)
            * self.dust_relay_feerate@
        &&& fits_the_limit(p.target, p.tx_weight(s, self.drain_weights))
    }

    /// A selection has a score exactly if it covers the target and is not too heavy without change.
    /// The score is the lowest long-term fee that it can have: all that it pays if it makes no
    /// change, and what it owes with change and what spending that will cost if change is allowed
    /// and cheaper.
    #[verifier::spinoff_prover]
    #[verifier::rlimit(30)]
    pub proof fn score_is_the_cheaper_way(self, p: ProblemView, s: Seq<bool>)
        requires
            s.len() == p.n(),
            self.accepts(p),
            self.dust_relay_feerate.fee_wu(
                self.drain_weights.output_weight + self.drain_weights.spend_weight,
            ) <= u64::MAX,
        ensures
            self.score_of(p, s) is Some <==> {
                &&& p.value_of(s) - p.target.outputs.value_sum >= p.fee_owed(
                    s,
                    DrainWeights::spec_none(),
                )
                &&& fits_the_limit(p.target, p.tx_weight(s, DrainWeights::spec_none()))
            },
            self.score_of(p, s) matches Some(score) ==> score == ({
                let without = p.value_of(s) - p.target.outputs.value_sum;
                let with = p.fee_owed(s, self.drain_weights) + self.drain_weights.future_fee(
                    self.long_term_feerate,
                );
                if self.change_is_allowed(p, s) && with < without {
                    with
                } else {
                    without
                }
            }),
            ({
                let worth = p.value_of(s) - p.target.outputs.value_sum - p.fee_owed(
                    s,
                    self.drain_weights,
                );
                let drain = self.drain_of(p, s);
                if self.change_is_allowed(p, s) && worth > self.drain_weights.future_fee(
                    self.long_term_feerate,
                ) {
                    &&& drain == (Drain { weights: self.drain_weights, value: worth as u64 })
                    &&& self.change_value(p, s) == Some(worth)
                } else {
                    &&& drain == Drain::spec_none()
                    &&& self.change_value(p, s) is None
                }
            }),
    {
        let none = DrainWeights::spec_none();
        let both = self.drain_weights.output_weight + self.drain_weights.spend_weight;
        let worth = p.excess(s, self.empty_drain());
        let vbytes = FeeRate::weight_fills_vbytes(both);
        self.dust_relay_feerate.fee_wu_at_most_fee(both);
        self.dust_relay_feerate.fee_is_least(both, vbytes, worth);
        fee_laws::saturated_keeps(self.dust_relay_feerate.fee_wu(both));
        self.long_term_feerate.fee_wu_at_most_fee(0);
        p.selection_bounded(s);
        p.fees_bounded(s, none);
        p.fees_bounded(s, self.drain_weights);
        p.drain_owes_more(s, self.drain_weights);
    }

    /// A weight limit that a transaction with change keeps to makes no difference to its change and
    /// its score.
    pub proof fn a_limit_that_is_kept_changes_nothing(
        self,
        p: ProblemView,
        s: Seq<bool>,
        limit: Option<u64>,
        other: Option<u64>,
    )
        requires
            limit matches Some(limit) ==> p.tx_weight(s, self.drain_weights) <= limit,
            other matches Some(other) ==> p.tx_weight(s, self.drain_weights) <= other,
        ensures
            self.drain_of(with_limit(p, limit), s) == self.drain_of(with_limit(p, other), s),
            self.score_of(with_limit(p, limit), s) == self.score_of(with_limit(p, other), s),
    {
        let (a, b) = (with_limit(p, limit), with_limit(p, other));
        let none = DrainWeights::spec_none();
        same_but_for_the_limit(a, p, s, self.drain_weights);
        same_but_for_the_limit(b, p, s, self.drain_weights);
        same_but_for_the_limit(a, p, s, none);
        same_but_for_the_limit(b, p, s, none);
        a.drain_owes_more(s, self.drain_weights);
        b.drain_owes_more(s, self.drain_weights);
    }

    /// Where nothing drags in ancestors, a selection that covers the target bounds all below it: by
    /// its own score if it has change or if no candidate fits any more besides change; else by no
    /// more than what is owed and the cost of change.
    #[verifier::spinoff_prover]
    #[verifier::rlimit(30)]
    pub proof fn funded_bound_is_its_score_or_change(self, state: SelectionState)
        requires
            state.wf(),
            self.accepts(state.problem),
            !lowest_fee::has_ancestors(state.problem),
            self.score_of(state.problem, state.selected) is Some,
        ensures
            self.bound_of(state) is Some,
            self.bound_of(state)->0 <= self.score_of(state.problem, state.selected)->0,
            self.drain_of(state.problem, state.selected).weights != DrainWeights::spec_none()
                ==> self.bound_of(state) == self.score_of(state.problem, state.selected),
            (forall|c: int|
                0 <= c < state.problem.n() && !state.selected[c] && !state.banned[c]
                    ==> !fits_the_limit(
                    state.problem.target,
                    state.problem.tx_weight(state.selected, self.drain_weights) + (
                    #[trigger] state.problem.candidates[c]).weight,
                )) && state.problem.target.max_weight is Some ==> self.bound_of(state)
                == self.score_of(state.problem, state.selected),
            self.drain_of(state.problem, state.selected) == Drain::spec_none() && (
            state.problem.target.max_weight is None || exists|c: int|
                0 <= c < state.problem.n() && !state.selected[c] && !state.banned[c]
                    && fits_the_limit(
                    state.problem.target,
                    state.problem.tx_weight(state.selected, self.drain_weights) + (
                    #[trigger] state.problem.candidates[c]).weight,
                )) ==> ({
                let owed = state.problem.fee_owed(state.selected, DrainWeights::spec_none());
                let added = self.drain_weights.added_weight(
                    state.problem.target.outputs.n_outputs as int,
                );
                4000 * (self.bound_of(state)->0 - owed) <= added * state.problem.target.fee.rate@
                    + self.drain_weights.spend_weight * self.long_term_feerate@
            }),
            self.bound_of(state) != self.score_of(state.problem, state.selected) ==> ({
                let owed = state.problem.fee_owed(state.selected, DrainWeights::spec_none());
                let added = self.drain_weights.added_weight(
                    state.problem.target.outputs.n_outputs as int,
                );
                let exact = added * state.problem.target.fee.rate@ + self.drain_weights.spend_weight
                    * self.long_term_feerate@;
                exact - 4000 < 4000 * (self.bound_of(state)->0 - owed) <= exact
            }),
    {
        let p = state.problem;
        let s = state.selected;
        p.selection_bounded(s);
        p.fees_bounded(s, DrainWeights::spec_none());
        p.fees_bounded(s, self.drain_weights);
        p.drain_owes_more(s, self.drain_weights);
        self.long_term_feerate.fee_wu_at_most_fee(0);
        let rate = p.target.fee.rate@ as int;
        let added = self.drain_weights.added_weight(p.target.outputs.n_outputs as int);
        assert(0 <= added * rate) by (nonlinear_arith)
            requires
                0 <= added,
                0 <= rate,
        ;
        assert(0 <= self.drain_weights.spend_weight * self.long_term_feerate@) by (nonlinear_arith);
        if let Some(value) = self.change_value(p, s) {
            assert(value > 0);
        }
        if exists|c: int|
            0 <= c < p.n() && !state.selected[c] && !state.banned[c] && fits_the_limit(
                p.target,
                p.tx_weight(s, self.drain_weights) + (#[trigger] p.candidates[c]).weight,
            ) {
            let c = choose|c: int|
                0 <= c < p.n() && !state.selected[c] && !state.banned[c] && fits_the_limit(
                    p.target,
                    p.tx_weight(s, self.drain_weights) + (#[trigger] p.candidates[c]).weight,
                );
            assert(state.undecided(c));
        }
        if self.change_reachable(state) && p.target.max_weight is Some {
            let c = choose|c: int|
                0 <= c < p.n() && #[trigger] state.undecided(c) && p.tx_weight(
                    s,
                    self.drain_weights,
                ) + p.candidates[c].weight <= p.target.max_weight->0;
            assert(!state.selected[c] && !state.banned[c]);
            assert(fits_the_limit(
                p.target,
                p.tx_weight(s, self.drain_weights) + p.candidates[c].weight,
            ));
        }
    }

    /// A selection that is too heavy without change has no bound. Where nothing drags in ancestors,
    /// neither has one that does not cover the target however many candidates are taken in order.
    pub proof fn no_bound_where_nothing_is_valid(self, state: SelectionState)
        requires
            state.wf(),
        ensures
            !fits_the_limit(
                state.problem.target,
                state.problem.tx_weight(state.selected, DrainWeights::spec_none()),
            ) ==> self.bound_of(state) is None,
            !lowest_fee::has_ancestors(state.problem) && (forall|k: int|
                0 <= k <= state.unselected().len() ==> !state.problem.funded(
                    (#[trigger] state.taking(k)).selected,
                    Drain::spec_none(),
                )) ==> self.bound_of(state) is None,
    {
        state.taking_none();
        if forall|k: int|
            0 <= k <= state.unselected().len() ==> !state.problem.funded(
                (#[trigger] state.taking(k)).selected,
                Drain::spec_none(),
            ) {
            assert(!state.problem.funded(state.taking(0).selected, Drain::spec_none()));
        }
    }

    /// With ancestors, a selection that is not too heavy always has a bound, which is never below
    /// the fee floor.
    #[verifier::spinoff_prover]
    #[verifier::rlimit(40)]
    pub proof fn bound_with_ancestors_keeps_to_the_floor(self, state: SelectionState)
        requires
            state.wf(),
            self.accepts(state.problem),
            lowest_fee::has_ancestors(state.problem),
            fits_the_limit(
                state.problem.target,
                state.problem.tx_weight(state.selected, DrainWeights::spec_none()),
            ),
        ensures
            self.bound_of(state) matches Some(bound) && bound >= state.fee_floor(),
    {
        let p = state.problem;
        let fee = p.target.fee;
        let none = DrainWeights::spec_none();
        let weight = p.tx_weight(state.selected, none);
        let more = self.added_weight(state);
        p.selection_bounded(state.selected);
        p.fees_bounded(state.selected, none);
        p.fees_bounded(state.selected, self.drain_weights);
        p.lower_bound_bounded(state.selected, state.reachable());
        self.rates_fit(p);
        if p.funded(state.selected, Drain::spec_none()) {
            assert(self.funded_bound_with_ancestors(state) >= state.fee_floor());
        } else {
            self.added_weight_is_not_negative(state);
            fee.rate.fee_monotone(weight, weight + more);
            if let Some(replace) = fee.replace {
                replace.incremental_relay_feerate.fee_monotone(weight, weight + more);
            }
        }
    }

    proof fn added_weight_is_not_negative(self, state: SelectionState)
        ensures
            self.added_weight(state) >= 0,
    {
        assert forall|deficit: int, w: int, gain: int|
            w >= 0 implies #[trigger] lowest_fee::weight_for(deficit, w, gain) >= 0 by {
            if deficit > 0 && gain > 0 {
                assert((deficit * w) / gain >= 0) by (nonlinear_arith)
                    requires
                        deficit > 0,
                        w >= 0,
                        gain > 0,
                ;
            }
        }
        let (v, w) = lowest_fee::densest(state);
        assert(w >= 0);
    }
}

proof fn same_but_for_the_limit(a: ProblemView, p: ProblemView, s: Seq<bool>, drain: DrainWeights)
    requires
        a == with_limit(p, a.target.max_weight),
    ensures
        a.tx_weight(s, drain) == p.tx_weight(s, drain),
        a.value_of(s) == p.value_of(s),
        a.fee_owed(s, drain) == p.fee_owed(s, drain),
{
    assert(a.candidates == p.candidates && a.ancestors == p.ancestors && a.drags == p.drags);
    assert forall|x: int| 0 <= x < p.m() implies #[trigger] a.union(s)[x] == p.union(s)[x] by {
        if p.dragged(s, x) {
            let c = choose|c: int| 0 <= c < p.n() && s[c] && #[trigger] p.drags[c][x];
            assert(s[c] && a.drags[c][x]);
        }
        if a.dragged(s, x) {
            let c = choose|c: int| 0 <= c < a.n() && s[c] && #[trigger] a.drags[c][x];
            assert(s[c] && p.drags[c][x]);
        }
    }
    assert(a.union(s) =~= p.union(s));
}

impl LowestFeeChangeless {
    /// A selection scores what it pays exactly if it covers the target, is not too heavy, and the
    /// lowest long-term fee that it can have is without change.
    pub proof fn scores_what_has_no_change(self, p: ProblemView, s: Seq<bool>)
        requires
            s.len() == p.n(),
            self.accepts(p),
        ensures
            self.score_of(p, s) is Some <==> {
                &&& p.value_of(s) - p.target.outputs.value_sum >= p.fee_owed(
                    s,
                    DrainWeights::spec_none(),
                )
                &&& fits_the_limit(p.target, p.tx_weight(s, DrainWeights::spec_none()))
                &&& self.spec_lowest_fee().drain_of(p, s) == Drain::spec_none()
            },
            self.score_of(p, s) matches Some(score) ==> {
                &&& score == p.value_of(s) - p.target.outputs.value_sum
                &&& self.spec_lowest_fee().score_of(p, s) == Some(score)
            },
    {
        p.selection_bounded(s);
        p.fees_bounded(s, self.drain_weights);
        self.long_term_feerate.fee_wu_at_most_fee(0);
        if let Some(value) = self.spec_lowest_fee().change_value(p, s) {
            assert(value > 0);
        }
    }

    /// Without a weight limit, the most that a selection without change can be worth after paying
    /// for change is the ceiling: one that is worth more has change.
    pub proof fn the_ceiling_parts_change_from_none(self, p: ProblemView, s: Seq<bool>)
        requires
            p.target.max_weight is None,
        ensures
            self.spec_lowest_fee().change_value(p, s) is None <==> p.value_of(s)
                - p.target.outputs.value_sum - p.fee_owed(s, self.drain_weights)
                <= self.excess_ceiling(),
    {
        let weights = self.drain_weights;
        self.dust_relay_feerate.fee_wu_at_most_fee(weights.output_weight + weights.spend_weight);
        self.long_term_feerate.fee_wu_at_most_fee(weights.spend_weight as int);
    }

    /// Both metrics measure change alike.
    pub proof fn measures_change_like_the_lowest_fee(self)
        ensures
            self.spec_lowest_fee().long_term_feerate == self.long_term_feerate,
            self.spec_lowest_fee().dust_relay_feerate == self.dust_relay_feerate,
            self.spec_lowest_fee().drain_weights == self.drain_weights,
    {
    }

    /// A selection is given up exactly if candidates are left that are all worth their weight,
    /// nothing drags in ancestors, there is no weight limit, and what it would be worth after
    /// paying for change is above the ceiling and above what all inputs could still take to be
    /// counted and framed.
    pub proof fn given_up_beyond_the_ceiling(self, state: SelectionState)
        requires
            state.wf(),
            !lowest_fee::has_ancestors(state.problem),
            state.problem.target.max_weight is None,
            state.problem.n() <= u64::MAX,
            ({
                let framing = 4 * weights::varint_bytes(state.problem.n()) + 2 + state.problem.n();
                state.problem.target.fee.rate.fee_wu(framing) <= u64::MAX
            }),
        ensures
            self.overshot(state) <==> {
                let p = state.problem;
                let framing = 4 * weights::varint_bytes(p.n()) + 2 + p.n();
                &&& exists|c: int|
                    0 <= c < p.n() && !state.selected[c] && !(#[trigger] state.banned[c])
                &&& forall|c: int|
                    0 <= c < p.n() && !state.selected[c] && !state.banned[c] ==> (
                    #[trigger] p.candidates[c]).value * 4000 > p.candidates[c].weight
                        * p.target.fee.rate@
                &&& p.value_of(state.selected) - p.target.outputs.value_sum - p.fee_owed(
                    state.selected,
                    self.drain_weights,
                ) > self.excess_ceiling() + p.target.fee.rate.fee_wu(framing)
            },
            self.overshot(state) ==> self.bound_of(state) is None,
    {
        let p = state.problem;
        let framing = 4 * weights::varint_bytes(p.n()) + 2 + p.n();
        p.target.fee.rate.fee_wu_at_most_fee(framing);
        fee_laws::saturated_keeps(p.target.fee.rate.fee_wu(framing));
        state.unselected_lists();
        state.what_is_left_is_asked_one_by_one();
        if exists|c: int| 0 <= c < p.n() && !state.selected[c] && !(#[trigger] state.banned[c]) {
            let c = choose|c: int| 0 <= c < p.n() && !state.selected[c] && !(
            #[trigger] state.banned[c]);
            assert(state.undecided(c));
            assert(state.unselected().contains(c as usize));
        }
        if state.unselected().len() > 0 {
            let c = state.unselected()[0] as int;
            assert(state.undecided(c) && !state.banned[c]);
        }
    }

    /// Where it is not given up, a selection is bounded like the lowest fee, and among few
    /// candidates by no less than what it pays.
    pub proof fn bounded_by_what_is_paid(self, state: SelectionState)
        requires
            state.wf(),
            self.accepts(state.problem),
            !self.overshot(state),
        ensures
            self.bound_of(state) is Some <==> self.spec_lowest_fee().bound_of(state) is Some,
            self.bound_of(state) matches Some(bound) ==> {
                let other = self.spec_lowest_fee().bound_of(state)->0;
                let paid = state.problem.value_of(state.selected)
                    - state.problem.target.outputs.value_sum;
                &&& bound >= other
                &&& state.problem.n() <= 24 ==> bound >= paid && bound >= 0 && (bound == other || bound
                    == paid || bound == 0)
                &&& state.problem.n() > 24 ==> bound == other
            },
    {
        state.problem.selection_bounded(state.selected);
    }
}

/// What a constraint still needs of candidate `c` once `less` is selected, and what the candidate
/// brings towards it: for the target rate, the absolute fee and the replacement.
pub open spec fn need(p: ProblemView, less: Seq<bool>, c: Candidate, i: int) -> (int, int) {
    let weight = p.tx_weight(less, DrainWeights::spec_none());
    let paid = p.value_of(less) - p.target.outputs.value_sum;
    let fee = p.target.fee;
    if i == 0 {
        (4000 * (fee.rate.fee_wu(weight) - paid), c.value * 4000 - c.weight * fee.rate@)
    } else if i == 1 {
        (fee.absolute - paid, c.value as int)
    } else {
        match fee.replace {
            Some(replace) => {
                let rate = replace.incremental_relay_feerate;
                (
                    4000 * (replace.fee + rate.fee_wu(weight) - paid),
                    c.value * 4000 - c.weight * rate@,
                )
            },
            None => (0, 1),
        }
    }
}

/// Whether a part of candidate `c` that meets a need is too heavy for what the limit leaves.
pub open spec fn is_too_much(
    p: ProblemView,
    less: Seq<bool>,
    c: Candidate,
    need: (int, int),
) -> bool {
    p.target.max_weight matches Some(limit) && need.0 * c.weight > (limit - p.tx_weight(
        less,
        DrainWeights::spec_none(),
    )) * need.1
}

impl LowestFee {
    /// Where nothing drags in ancestors, a selection that does not cover the target is completed in
    /// order, and the candidate that covers it is taken only in part: as much of its value as the
    /// constraint takes that needs the most, rounded down. There is no bound exactly if some
    /// constraint gains nothing by that candidate, or the part that it takes is too heavy.
    #[verifier::spinoff_prover]
    #[verifier::rlimit(30)]
    pub proof fn the_last_candidate_is_taken_in_part(self, state: SelectionState, k: int)
        requires
            state.wf(),
            self.accepts(state.problem),
            !lowest_fee::has_ancestors(state.problem),
            fits_the_limit(
                state.problem.target,
                state.problem.tx_weight(state.selected, DrainWeights::spec_none()),
            ),
            1 <= k <= state.unselected().len(),
            state.problem.excess(state.taking(k).selected, Drain::spec_none()) > 0,
            forall|j: int|
                0 <= j < k ==> !state.problem.funded(
                    (#[trigger] state.taking(j)).selected,
                    Drain::spec_none(),
                ),
            ({
                let c = state.problem.candidates[state.unselected()[k - 1] as int];
                let less = state.taking(k - 1).selected;
                forall|i: int|
                    0 <= i < 3 && (#[trigger] need(state.problem, less, c, i)).0 > 0 && need(
                        state.problem,
                        less,
                        c,
                        i,
                    ).1 > 0 ==> need(state.problem, less, c, i).0 * c.value <= u64::MAX * need(
                        state.problem,
                        less,
                        c,
                        i,
                    ).1
            }),
        ensures
            ({
                let p = state.problem;
                let less = state.taking(k - 1).selected;
                let c = p.candidates[state.unselected()[k - 1] as int];
                let paid = p.value_of(less) - p.target.outputs.value_sum;
                match self.bound_of(state) {
                    Some(bound) => {
                        &&& bound >= paid
                        &&& forall|i: int|
                            0 <= i < 3 && (#[trigger] need(p, less, c, i)).0 > 0 ==> {
                                let (lack, gain) = need(p, less, c, i);
                                &&& gain > 0
                                &&& (bound - paid + 1) * gain > lack * c.value
                                &&& !is_too_much(p, less, c, (lack, gain))
                            }
                        &&& bound == paid || exists|i: int|
                            0 <= i < 3 && (#[trigger] need(p, less, c, i)).0 > 0 && (bound - paid)
                                * need(p, less, c, i).1 <= need(p, less, c, i).0 * c.value
                        &&& fits_the_limit(p.target, p.tx_weight(less, DrainWeights::spec_none()))
                    },
                    None => {
                        ||| !fits_the_limit(
                            p.target,
                            p.tx_weight(less, DrainWeights::spec_none()),
                        )
                        ||| exists|i: int|
                            0 <= i < 3 && (#[trigger] need(p, less, c, i)).0 > 0 && (need(
                                p,
                                less,
                                c,
                                i,
                            ).1 <= 0 || is_too_much(p, less, c, need(p, less, c, i)))
                    },
                }
            }),
    {
        let p = state.problem;
        let fee = p.target.fee;
        let none = DrainWeights::spec_none();
        let less = state.taking(k - 1).selected;
        let last = state.unselected()[k - 1] as int;
        let c = p.candidates[last];
        let paid = p.value_of(less) - p.target.outputs.value_sum;
        let weight = p.tx_weight(less, none);
        state.taking_none();
        assert(!p.funded(state.taking(0).selected, Drain::spec_none()));
        assert(Self::first_funded(state, k));
        let found = choose|k: int| Self::first_funded(state, k);
        assert(Self::first_funded(state, found));
        if found < k {
            assert(!p.funded(state.taking(found).selected, Drain::spec_none()));
        }
        if k < found {
            assert(!p.funded(state.taking(k).selected, Drain::spec_none()));
        }
        greedy_bound::taking_last(state, k);
        state.taking_leaves(k - 1);
        p.no_ancestors_no_bump(less);
        p.selection_bounded(less);
        p.fees_bounded(less, none);
        let (x, y, z) = (need(p, less, c, 0), need(p, less, c, 2), need(p, less, c, 1));
        let for_rate = lowest_fee::scale_for(
            p.rate_fee_wu(less, none) - p.fee_paid(less, 0),
            c.value * 4000 - c.weight * fee.rate@,
            4000,
        );
        part_meets_need(p, less, c, x, for_rate);
        let for_absolute = lowest_fee::scale_for(
            fee.absolute - p.fee_paid(less, 0),
            c.value as int,
            1,
        );
        part_meets_need(p, less, c, z, for_absolute);
        let for_replacement = match fee.replace {
            Some(replace) => lowest_fee::scale_for(
                replace.min_fee_wu(weight) - p.fee_paid(less, 0),
                c.value * 4000 - c.weight * replace.incremental_relay_feerate@,
                4000,
            ),
            None => Some((0int, 1int)),
        };
        part_meets_need(p, less, c, y, for_replacement);
        assert(need(p, less, c, 0) == x && need(p, less, c, 1) == z && need(p, less, c, 2) == y);
        assert(self.unfunded_bound(state) == Self::resized_fee(p, less, c));
        if let (Some(a), Some(b), Some(d)) = (for_rate, for_replacement, for_absolute) {
            let (u, v, w) = (
                Self::part_value(a, c),
                Self::part_value(b, c),
                Self::part_value(d, c),
            );
            let most = model::max(model::max(u, v), w);
            if let Some(bound) = Self::resized_fee(p, less, c) {
                assert(bound == most + paid);
                assert(self.bound_of(state) == Some(bound as Score));
                more_covers(u, most, x, c.value as int);
                more_covers(v, most, y, c.value as int);
                more_covers(w, most, z, c.value as int);
            }
        }
    }
}

/// What covers a need is covered by more.
proof fn more_covers(part: int, most: int, need: (int, int), value: int)
    requires
        part <= most,
        need.0 > 0 ==> need.1 > 0 && need.0 * value < (part + 1) * need.1,
    ensures
        need.0 > 0 ==> need.0 * value < (most + 1) * need.1,
{
    if need.0 > 0 {
        let g = need.1;
        assert((part + 1) * g <= (most + 1) * g) by (nonlinear_arith)
            requires
                part <= most,
                0 < g,
        ;
    }
}

/// What a part is worth that meets a need, and when there is one.
proof fn part_meets_need(
    p: ProblemView,
    less: Seq<bool>,
    c: Candidate,
    need: (int, int),
    part: Option<(int, int)>,
)
    requires
        need.0 <= 0 ==> part == Some((0int, 1int)),
        need.0 > 0 && need.1 > 0 ==> part == Some(need),
        need.0 > 0 && need.1 <= 0 ==> part is None,
        need.0 > 0 && need.1 > 0 ==> need.0 * c.value <= u64::MAX * need.1,
    ensures
        part is None <==> need.0 > 0 && need.1 <= 0,
        part matches Some(part) ==> {
            let room = match p.target.max_weight {
                Some(limit) => Some(limit - p.tx_weight(less, DrainWeights::spec_none())),
                None => None,
            };
            let value = LowestFee::part_value(part, c);
            &&& LowestFee::too_heavy(part, c, room) <==> (if need.0 > 0 {
                is_too_much(p, less, c, need)
            } else {
                !fits_the_limit(p.target, p.tx_weight(less, DrainWeights::spec_none()))
            })
            &&& need.0 > 0 && !fits_the_limit(
                p.target,
                p.tx_weight(less, DrainWeights::spec_none()),
            ) ==> is_too_much(p, less, c, need)
            &&& need.0 <= 0 ==> value == 0
            &&& need.0 > 0 ==> value * need.1 <= need.0 * c.value < (value + 1) * need.1
            &&& value >= 0
        },
{
    let w = c.weight as int;
    let v = c.value as int;
    assert(0 * w == 0 && 0 * v == 0) by (nonlinear_arith);
    if need.0 > 0 && need.1 > 0 {
        let (d, g) = need;
        let q = (d * v) / g;
        assert(q * g <= d * v < (q + 1) * g && 0 <= q) by (nonlinear_arith)
            requires
                0 < d,
                0 < g,
                0 <= v,
                q == (d * v) / g,
        ;
        assert(q <= u64::MAX) by (nonlinear_arith)
            requires
                q * g <= d * v,
                d * v <= u64::MAX * g,
                0 < g,
        ;
        fee_laws::saturated_keeps(q);
        if let Some(limit) = p.target.max_weight {
            let room = limit - p.tx_weight(less, DrainWeights::spec_none());
            if room < 0 {
                assert(d * w > room * g) by (nonlinear_arith)
                    requires
                        0 < d,
                        0 <= w,
                        room < 0,
                        0 < g,
                ;
            }
        }
    }
}

/// What a constraint lacks below a selection that ancestors weigh on, and what a candidate brings
/// towards it: for the target rate with the lower bound on the bump, the absolute fee and the
/// replacement.
pub open spec fn want(state: SelectionState, c: Candidate, i: int) -> (int, int) {
    let p = state.problem;
    let weight = p.tx_weight(state.selected, DrainWeights::spec_none());
    let lacking = p.target.outputs.value_sum - p.value_of(state.selected);
    let fee = p.target.fee;
    if i == 0 {
        (
            4000 * (lacking + p.bump_lower_bound(state.selected, state.reachable())) + fee.rate@
                * weight,
            4000 * c.value - fee.rate@ * c.weight,
        )
    } else if i == 1 {
        (lacking + fee.absolute, c.value as int)
    } else {
        match fee.replace {
            Some(replace) => {
                let rate = replace.incremental_relay_feerate@;
                (4000 * (lacking + replace.fee) + rate * weight, 4000 * c.value - rate * c.weight)
            },
            None => (0, 0),
        }
    }
}

impl LowestFee {
    /// With ancestors, what is added at least before the target is covered is the weight by which
    /// the densest candidate that is left would close the widest gap, rounded down: nothing where a
    /// candidate has value but no weight.
    #[verifier::spinoff_prover]
    #[verifier::rlimit(30)]
    pub proof fn added_weight_closes_the_widest_gap(self, state: SelectionState, c: int)
        requires
            state.wf(),
            0 <= c < state.problem.n(),
            !state.selected[c],
            !state.banned[c],
            state.problem.candidates[c].weight > 0,
            forall|d: int|
                0 <= d < state.problem.n() && !state.selected[d] && !state.banned[d]
                    && state.problem.candidates[d].weight > 0 ==> (
                #[trigger] state.problem.candidates[d]).value * state.problem.candidates[c].weight
                    <= state.problem.candidates[c].value * state.problem.candidates[d].weight,
        ensures
            state.weightless_value_left() ==> self.added_weight(state) == 0,
            !state.weightless_value_left() ==> ({
                let candidate = state.problem.candidates[c];
                let added = self.added_weight(state);
                &&& forall|i: int|
                    0 <= i < 3 && (#[trigger] want(state, candidate, i)).0 > 0 && want(
                        state,
                        candidate,
                        i,
                    ).1 > 0 ==> (added + 1) * want(state, candidate, i).1 > want(
                        state,
                        candidate,
                        i,
                    ).0 * candidate.weight
                &&& added == 0 || exists|i: int|
                    0 <= i < 3 && (#[trigger] want(state, candidate, i)).0 > 0 && want(
                        state,
                        candidate,
                        i,
                    ).1 > 0 && added * want(state, candidate, i).1 <= want(
                        state,
                        candidate,
                        i,
                    ).0 * candidate.weight
                &&& added >= 0
            }),
    {
        let p = state.problem;
        let fee = p.target.fee;
        let candidate = p.candidates[c];
        let (a, b) = (candidate.value as int, candidate.weight as int);
        assert(state.undecided(c));
        assert(lowest_fee::is_densest(state, c));
        let d = choose|d: int| lowest_fee::is_densest(state, d);
        assert(lowest_fee::is_densest(state, d));
        let (v, w) = lowest_fee::densest(state);
        assert(v == p.candidates[d].value && w == p.candidates[d].weight);
        assert(v * b == a * w);
        let (x, y, z) = (
            want(state, candidate, 0),
            want(state, candidate, 1),
            want(state, candidate, 2),
        );
        let rate = fee.rate@ as int;
        closes_alike(x.0, v, w, a, b, rate, 4000);
        closes_alike(y.0, v, w, a, b, 0, 1);
        assert(0 * w == 0 && 0 * b == 0) by (nonlinear_arith);
        let for_rate = lowest_fee::weight_for(x.0, w, 4000 * v - rate * w);
        let for_absolute = lowest_fee::weight_for(y.0, w, v);
        let for_replacement = match fee.replace {
            Some(replace) => lowest_fee::weight_for(
                z.0,
                w,
                4000 * v - replace.incremental_relay_feerate@ * w,
            ),
            None => 0,
        };
        if let Some(replace) = fee.replace {
            closes_alike(
                z.0,
                v,
                w,
                a,
                b,
                replace.incremental_relay_feerate@ as int,
                4000,
            );
        }
        if !state.weightless_value_left() {
            let added = self.added_weight(state);
            assert(added == model::max(model::max(for_rate, for_absolute), for_replacement));
            more_closes(for_rate, added, x, b);
            more_closes(for_absolute, added, y, b);
            more_closes(for_replacement, added, z, b);
        }
    }

    /// With ancestors, a selection that does not cover the target is bounded by the least that
    /// meets every constraint on its weight and the weight that is added at least, with feerates
    /// applied to weight units and the lower bound in place of the bump.
    #[verifier::spinoff_prover]
    #[verifier::rlimit(30)]
    pub proof fn unfunded_bound_with_ancestors_is_least(self, state: SelectionState, paid: int)
        requires
            state.wf(),
            self.accepts(state.problem),
            lowest_fee::has_ancestors(state.problem),
            !state.problem.funded(state.selected, Drain::spec_none()),
            fits_the_limit(
                state.problem.target,
                state.problem.tx_weight(state.selected, DrainWeights::spec_none()),
            ),
            ({
                let p = state.problem;
                let weight = p.tx_weight(state.selected, DrainWeights::spec_none())
                    + self.added_weight(state);
                &&& weight <= u64::MAX
                &&& p.target.fee.rate.fee_wu(weight) <= u64::MAX
                &&& p.target.fee.replace matches Some(replace)
                    ==> replace.incremental_relay_feerate.fee_wu(weight) <= u64::MAX
            }),
            paid >= 0,
        ensures
            self.bound_of(state) matches Some(bound) && (paid >= bound <==> {
                let p = state.problem;
                let fee = p.target.fee;
                let weight = p.tx_weight(state.selected, DrainWeights::spec_none())
                    + self.added_weight(state);
                let bump = p.bump_lower_bound(state.selected, state.reachable());
                &&& (paid - bump) * 4000 >= weight * fee.rate@
                &&& paid >= fee.absolute
                &&& fee.replace matches Some(replace) ==> (paid - replace.fee) * 4000 >= weight
                    * replace.incremental_relay_feerate@
            }),
    {
        let p = state.problem;
        let fee = p.target.fee;
        let none = DrainWeights::spec_none();
        self.added_weight_is_not_negative(state);
        let weight = p.tx_weight(state.selected, none) + self.added_weight(state);
        let bump = p.bump_lower_bound(state.selected, state.reachable());
        let vbytes = FeeRate::weight_fills_vbytes(weight);
        p.selection_bounded(state.selected);
        p.lower_bound_bounded(state.selected, state.reachable());
        self.rates_fit(p);
        fee.rate.fee_is_least(weight, vbytes, paid - bump);
        fee.rate.fee_wu_at_most_fee(weight);
        fee_laws::saturated_keeps(fee.rate.fee_wu(weight));
        if let Some(replace) = fee.replace {
            let rate = replace.incremental_relay_feerate;
            replace.replacing_pays_twice(weight, vbytes, paid);
            rate.fee_wu_at_most_fee(weight);
            fee_laws::saturated_keeps(rate.fee_wu(weight));
        }
    }

    /// With ancestors, a selection that covers the target is bounded by its score less what the
    /// bump could still fall, or where it has no change by what it owes and change costs less that,
    /// whichever is less; and never by less than the fee floor.
    #[verifier::spinoff_prover]
    #[verifier::rlimit(30)]
    pub proof fn funded_bound_with_ancestors_is_no_lower(self, state: SelectionState)
        requires
            state.wf(),
            self.accepts(state.problem),
            lowest_fee::has_ancestors(state.problem),
            self.score_of(state.problem, state.selected) is Some,
        ensures
            self.bound_of(state) matches Some(bound) && {
                let p = state.problem;
                let s = state.selected;
                let score = self.score_of(p, s)->0;
                let fall = p.bump(s) - p.bump_lower_bound(s, state.reachable());
                let owed = p.fee_owed(s, DrainWeights::spec_none());
                let added = self.drain_weights.added_weight(p.target.outputs.n_outputs as int);
                let exact = added * p.target.fee.rate@ + self.drain_weights.spend_weight
                    * self.long_term_feerate@;
                &&& bound >= state.fee_floor()
                &&& self.drain_of(p, s) != Drain::spec_none() && fall >= 0 ==> bound >= score - fall
                &&& fall >= 0 ==> bound >= score - fall || 4000 * (bound - owed + fall) > exact - 4000
                &&& fall >= 0 && score >= fall ==> bound <= score - fall || bound == state.fee_floor()
            },
    {
        let p = state.problem;
        let s = state.selected;
        let none = DrainWeights::spec_none();
        p.selection_bounded(s);
        p.fees_bounded(s, none);
        p.fees_bounded(s, self.drain_weights);
        p.lower_bound_bounded(s, state.reachable());
        self.rates_fit(p);
        self.long_term_feerate.fee_wu_at_most_fee(0);
        if let Some(value) = self.change_value(p, s) {
            assert(value > 0);
        }
        let rate = p.target.fee.rate@ as int;
        let added = self.drain_weights.added_weight(p.target.outputs.n_outputs as int);
        assert(0 <= added * rate) by (nonlinear_arith)
            requires
                0 <= added,
                0 <= rate,
        ;
        assert(0 <= self.drain_weights.spend_weight * self.long_term_feerate@) by (nonlinear_arith);
    }
}

/// Candidates that hold the same per weight unit close a gap by the same weight.
proof fn closes_alike(lack: int, v: int, w: int, a: int, b: int, rate: int, unit: int)
    requires
        0 < w,
        0 < b,
        v * b == a * w,
    ensures
        ({
            let closed = lowest_fee::weight_for(lack, w, unit * v - rate * w);
            let gain = unit * a - rate * b;
            &&& closed >= 0
            &&& lack > 0 && gain > 0 ==> closed * gain <= lack * b < (closed + 1) * gain
            &&& !(lack > 0 && gain > 0) ==> closed == 0
        }),
{
    let g = unit * v - rate * w;
    let gain = unit * a - rate * b;
    assert(g * b == gain * w) by (nonlinear_arith)
        requires
            v * b == a * w,
            g == unit * v - rate * w,
            gain == unit * a - rate * b,
    ;
    if g > 0 {
        assert(g * b > 0) by (nonlinear_arith)
            requires
                g > 0,
                0 < b,
        ;
        cancels_strictly(0, gain, w);
    } else {
        assert(g * b <= 0) by (nonlinear_arith)
            requires
                g <= 0,
                0 < b,
        ;
        cancels(gain, 0, w);
    }
    if lack > 0 && gain > 0 {
        let q = (lack * w) / g;
        assert(q * g <= lack * w < (q + 1) * g && q >= 0) by (nonlinear_arith)
            requires
                0 < g,
                0 < lack,
                0 < w,
                q == (lack * w) / g,
        ;
        scales_alike(q * g, lack * w, q + 1, g, b);
        assert((q * g) * b == (q * gain) * w) by (nonlinear_arith)
            requires
                g * b == gain * w,
        ;
        assert(((q + 1) * g) * b == ((q + 1) * gain) * w) by (nonlinear_arith)
            requires
                g * b == gain * w,
        ;
        assert((lack * w) * b == (lack * b) * w) by (nonlinear_arith);
        cancels(q * gain, lack * b, w);
        cancels_strictly(lack * b, (q + 1) * gain, w);
    }
}

/// Both sides can be scaled by what is positive.
proof fn scales_alike(x: int, y: int, n: int, g: int, b: int)
    requires
        x <= y,
        y < n * g,
        0 < b,
    ensures
        x * b <= y * b,
        y * b < (n * g) * b,
{
    let z = n * g;
    assert(x * b <= y * b) by (nonlinear_arith)
        requires
            x <= y,
            0 < b,
    ;
    assert(y * b < z * b) by (nonlinear_arith)
        requires
            y < z,
            0 < b,
    ;
}

/// What is positive cancels.
proof fn cancels(x: int, y: int, w: int)
    requires
        x * w <= y * w,
        0 < w,
    ensures
        x <= y,
{
    if x > y {
        assert(x * w > y * w) by (nonlinear_arith)
            requires
                x > y,
                0 < w,
        ;
    }
}

/// What is positive cancels.
proof fn cancels_strictly(x: int, y: int, w: int)
    requires
        x * w < y * w,
        0 < w,
    ensures
        x < y,
{
    if x >= y {
        assert(x * w >= y * w) by (nonlinear_arith)
            requires
                x >= y,
                0 < w,
        ;
    }
}

/// What closes a gap is exceeded by more.
proof fn more_closes(part: int, most: int, want: (int, int), weight: int)
    requires
        part <= most,
        want.0 > 0 && want.1 > 0 ==> want.0 * weight < (part + 1) * want.1,
    ensures
        want.0 > 0 && want.1 > 0 ==> want.0 * weight < (most + 1) * want.1,
{
    if want.0 > 0 && want.1 > 0 {
        let g = want.1;
        assert((part + 1) * g <= (most + 1) * g) by (nonlinear_arith)
            requires
                part <= most,
                0 < g,
        ;
    }
}

impl LowestFee {
    /// Every realistic problem can be measured at every realistic feerate.
    pub proof fn realistic_problems_can_be_measured(self, p: ProblemView)
        requires
            problem_laws::is_realistic(p, self.empty_drain()),
            self.long_term_feerate@ <= 1_000_000_000,
        ensures
            self.accepts(p),
    {
        let weights = self.drain_weights;
        p.realistic_problems_fit(self.empty_drain());
        p.realistic_problems_fit(Drain::spec_none());
        let added = weights.added_weight(p.target.outputs.n_outputs as int);
        let (rate, later) = (p.target.fee.rate@ as int, self.long_term_feerate@ as int);
        let spend = weights.spend_weight as int;
        assert(added * rate <= 5_000_000_000 * 1_000_000_000) by (nonlinear_arith)
            requires
                added <= 5_000_000_000,
                0 <= rate <= 1_000_000_000,
        ;
        assert(spend * later <= 5_000_000_000 * 1_000_000_000) by (nonlinear_arith)
            requires
                0 <= spend <= 4_000_000_000,
                0 <= later <= 1_000_000_000,
        ;
    }
}

impl LowestFeeChangeless {
    /// Every realistic problem can be measured at every realistic feerate.
    pub proof fn realistic_problems_can_be_measured(self, p: ProblemView)
        requires
            problem_laws::is_realistic(p, self.spec_lowest_fee().empty_drain()),
            self.long_term_feerate@ <= 1_000_000_000,
        ensures
            self.accepts(p),
    {
        self.spec_lowest_fee().realistic_problems_can_be_measured(p);
    }
}

/// Problems that are realistic are reported to be measurable.
pub proof fn realistic_problems_are_measured(
    metric: LowestFee,
    changeless: LowestFeeChangeless,
    problem: &SelectionProblem,
    measured: bool,
    also: bool,
)
    requires
        changeless.spec_lowest_fee() == metric,
        problem_laws::is_realistic(problem@, metric.empty_drain()),
        metric.long_term_feerate@ <= 1_000_000_000,
        call_ensures(LowestFee::can_measure, (&metric, problem), measured),
        call_ensures(LowestFeeChangeless::can_measure, (&changeless, problem), also),
    ensures
        measured,
        also,
{
    metric.realistic_problems_can_be_measured(problem@);
    changeless.realistic_problems_can_be_measured(problem@);
}

} // verus!
