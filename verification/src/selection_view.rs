//! Cached selection queries and hypothetical updates.
use crate::candidate::Candidate;
use crate::coin_selector::{bump_floor, higher, lower, CoinSelector};
use crate::drain::{ChangePolicy, Drain, DrainWeights};
use crate::feerate;
use crate::feerate::FeeRate;
use crate::model;
use crate::model::SelectionState;
use crate::selection_cache::SelectionCache;
use crate::selection_problem::{ancestor_shortfall, SelectionProblem};
use crate::target::{Target, TargetOutputs};
use crate::weights;
use crate::weights::TX_FIXED_FIELD_WEIGHT;
use vstd::prelude::*;

verus! {

/// A cached view over a [`CoinSelector`] that supports hypothetical updates.
///
/// [`add`](Self::add) and [`sub`](Self::sub) update the aggregates of this view without changing
/// the selector under it. Aggregate queries reflect those updates, while
/// [`selector`](Self::selector) is still what it was.
#[derive(Debug)]
pub struct SelectionView<'a> {
    selector: &'a CoinSelector<'a>,
    cache: SelectionCache,
}

impl<'a> View for SelectionView<'a> {
    type V = SelectionState;

    /// The state of the selector with the hypothetical selection in place of its own.
    closed spec fn view(&self) -> SelectionState {
        SelectionState { selected: self.cache.selection(), ..self.selector@ }
    }
}

impl<'a> Clone for SelectionView<'a> {
    fn clone(&self) -> (r: Self)
        ensures
            r@ == self@,
            r.base() == self.base(),
            self.inv() ==> r.inv(),
    {
        SelectionView { selector: self.selector, cache: self.cache.clone() }
    }
}

impl<'a> CoinSelector<'a> {
    /// A view of this selection, on which candidates can be added and taken away while the
    /// selector itself stays as it is.
    pub fn compute_view(&'a self) -> (r: SelectionView<'a>)
        requires
            self.inv(),
        ensures
            r.inv(),
            r@ == self@,
            r.base() == self@,
    {
        SelectionView::from_selector(self)
    }
}

impl<'a> SelectionView<'a> {
    /// The state of the selector under the view.
    pub closed spec fn base(&self) -> SelectionState {
        self.selector@
    }

    /// Whether the aggregates are those of the hypothetical selection.
    pub closed spec fn inv(&self) -> bool {
        &&& self.selector.inv()
        &&& self@.wf()
        &&& self.cache.matches(self@.problem, self@.selected, self@.reachable())
    }

    /// Whether the view makes no hypothetical update: it shows what the selector under it holds.
    pub open spec fn is_current(&self) -> bool {
        self@ == self.base()
    }

    /// The parts of a view belong together, and only its selection can differ from the selector's.
    pub proof fn inv_wf(&self)
        requires
            self.inv(),
        ensures
            self@.wf(),
            self.base().wf(),
            self@ == (SelectionState { selected: self@.selected, ..self.base() }),
            self@.problem.m() <= u32::MAX,
    {
        self.selector.inv_wf();
    }

    /// A view of `selector` as it is.
    pub fn from_selector(selector: &'a CoinSelector<'a>) -> (r: Self)
        requires
            selector.inv(),
        ensures
            r.inv(),
            r@ == selector@,
            r.base() == selector@,
    {
        let cache = SelectionCache::from_selector(selector);
        let r = SelectionView { selector, cache };
        proof {
            selector.inv_wf();
            assert(r@ == selector@);
        }
        r
    }

    /// The selector under the view, which hypothetical updates leave alone.
    pub fn selector(&self) -> (r: &'a CoinSelector<'a>)
        requires
            self.inv(),
        ensures
            r.inv(),
            r@ == self.base(),
    {
        self.selector
    }

    /// What the selection is for.
    pub fn target(&self) -> (r: Target)
        ensures
            r == self@.problem.target,
    {
        self.selector.target()
    }

    /// The selection problem.
    pub fn problem(&self) -> (r: &'a SelectionProblem)
        requires
            self.inv(),
        ensures
            r@ == self@.problem,
            r.inv(),
    {
        self.selector.problem()
    }

    /// The candidate at `index`, its position in construction order.
    pub fn candidate(&self, index: usize) -> (r: Candidate)
        requires
            index < self@.problem.n(),
        ensures
            r == self@.problem.candidates[index as int],
    {
        self.selector.candidate(index)
    }

    /// Whether the candidate at `index` is selected in this view.
    pub fn is_selected(&self, index: usize) -> (r: bool)
        ensures
            r == (index < self@.selected.len() && self@.selected[index as int]),
    {
        self.cache.is_selected(index)
    }

    /// Selects the candidate at `index` in this view. Nothing changes if it was selected there
    /// already.
    pub fn add(&mut self, index: usize)
        requires
            old(self).inv(),
            index < old(self)@.problem.n(),
        ensures
            final(self).inv(),
            final(self)@ == old(self)@.select(index as int),
            final(self).base() == old(self).base(),
    {
        let ghost before = self@;
        proof {
            self.inv_wf();
        }
        let banned: bool = self.selector.banned().contains(index);
        self.cache.add(
            self.selector.problem(),
            index,
            !banned,
            Ghost(before.selected),
            Ghost(before.reachable()),
        );
        proof {
            self.cache.matches_selection(
                before.problem,
                before.selected.update(index as int, true),
                before.reachable().update(index as int, false),
            );
            assert(before.reachable().update(index as int, false) =~= self@.reachable());
        }
    }

    /// Deselects the candidate at `index` in this view. Nothing changes if it was not selected
    /// there.
    pub fn sub(&mut self, index: usize)
        requires
            old(self).inv(),
            index < old(self)@.problem.n(),
        ensures
            final(self).inv(),
            final(self)@ == old(self)@.deselect(index as int),
            final(self).base() == old(self).base(),
    {
        let ghost before = self@;
        proof {
            self.inv_wf();
        }
        let banned: bool = self.selector.banned().contains(index);
        self.cache.sub(
            self.selector.problem(),
            index,
            !banned,
            Ghost(before.selected),
            Ghost(before.reachable()),
        );
        proof {
            let r = if before.selected[index as int] {
                before.reachable().update(index as int, !banned)
            } else {
                before.reachable()
            };
            self.cache.matches_selection(
                before.problem,
                before.selected.update(index as int, false),
                r,
            );
            assert(r =~= self@.reachable());
        }
    }

    /// The value of the selected inputs.
    pub fn selected_value(&self) -> (value: u64)
        requires
            self.inv(),
        ensures
            value == self@.problem.value_of(self@.selected),
    {
        self.cache.value_sum(Ghost(self@.problem), Ghost(self@.selected), Ghost(self@.reachable()))
    }

    /// The weight of the inputs, including the input-count varint and witness overhead.
    pub fn input_weight(&self) -> (weight: u64)
        requires
            self.inv(),
        ensures
            weight == self@.problem.input_weight(self@.selected),
    {
        self.cache.input_weight(
            Ghost(self@.problem),
            Ghost(self@.selected),
            Ghost(self@.reachable()),
        )
    }

    /// The weight of the transaction that spends the selection for `target_outputs` with a drain.
    pub fn weight(&self, target_outputs: TargetOutputs, drain_weights: DrainWeights) -> (weight:
        u64)
        requires
            self.inv(),
            target_outputs.n_outputs + drain_weights.n_outputs <= usize::MAX,
            TX_FIXED_FIELD_WEIGHT + self@.problem.heaviest_inputs()
                + target_outputs.weight_with_drain(drain_weights) <= u64::MAX,
        ensures
            weight == TX_FIXED_FIELD_WEIGHT + self@.problem.input_weight(self@.selected)
                + target_outputs.weight_with_drain(drain_weights),
    {
        proof {
            self@.problem.selection_bounded(self@.selected);
        }
        TX_FIXED_FIELD_WEIGHT + self.input_weight() + target_outputs.output_weight_with_drain(
            drain_weights,
        )
    }

    /// The weight of the transaction that spends the selection for the target with a drain.
    pub(crate) fn tx_weight(&self, drain_weights: DrainWeights) -> (weight: u64)
        requires
            self.inv(),
            self@.problem.weights_fit(drain_weights),
        ensures
            weight == self@.problem.tx_weight(self@.selected, drain_weights),
    {
        self.weight(self.target().outputs, drain_weights)
    }

    /// The bump owed for the ancestors of the selection, with shared ancestors charged once.
    pub fn ancestor_bump(&self) -> (bump: u64)
        requires
            self.inv(),
        ensures
            bump == self@.problem.bump(self@.selected),
    {
        let sum: (u64, u64) = self.cache.ancestors(
            Ghost(self@.problem),
            Ghost(self@.selected),
            Ghost(self@.reachable()),
        );
        ancestor_shortfall(self.target().fee.rate, sum)
    }

    /// Lower bound on the bump owed by this selection or any that extends it.
    pub fn ancestor_bump_lower_bound(&self) -> (bound: u64)
        requires
            self.inv(),
        ensures
            bound == self@.problem.bump_lower_bound(self@.selected, self@.reachable()),
    {
        proof {
            self.inv_wf();
        }
        if !self.problem().has_ancestors() {
            proof {
                self@.problem.no_ancestors_no_lower_bound(self@.selected, self@.reachable());
            }
            return 0;
        }
        let (weight, fee) = self.cache.ancestors(
            Ghost(self@.problem),
            Ghost(self@.selected),
            Ghost(self@.reachable()),
        );
        let surplus: u64 = self.cache.reachable_surplus(
            Ghost(self@.problem),
            Ghost(self@.selected),
            Ghost(self@.reachable()),
        );
        bump_floor(self.target().fee.rate, weight, fee, surplus)
    }

    /// Whether some undecided candidate weighs nothing but carries value. It closes any fee deficit
    /// at no added weight.
    pub fn has_weightless_undecided_value(&self) -> (r: bool)
        requires
            self.inv(),
        ensures
            r == self@.weightless_value_left(),
    {
        let any: bool = self.cache.has_weightless(
            Ghost(self@.problem),
            Ghost(self@.selected),
            Ghost(self@.reachable()),
        );
        proof {
            let p = self@.problem;
            let r = self@.reachable();
            if any {
                let c = choose|c: int|
                    0 <= c < r.len() && #[trigger] r[c] && p.candidates[c].weight == 0
                        && p.candidates[c].value > 0;
                assert(self@.undecided(c));
            }
            if self@.weightless_value_left() {
                let c = choose|c: int|
                    0 <= c < p.n() && #[trigger] self@.undecided(c) && p.candidates[c].weight == 0
                        && p.candidates[c].value > 0;
                assert(r[c]);
            }
        }
        any
    }

    /// The greatest value per weight unit among undecided candidates that weigh something, as a
    /// value and the weight it belongs to. It is zero where there is no such candidate.
    pub fn best_undecided_value_pwu(&self) -> (best: (u64, u64))
        requires
            self.inv(),
        ensures
            best.1 > 0,
            best == (0u64, 1u64) || exists|c: int|
                0 <= c < self@.problem.n() && #[trigger] self@.undecided(c) && best.0
                    == self@.problem.candidates[c].value && best.1
                    == self@.problem.candidates[c].weight,
            forall|c: int|
                0 <= c < self@.problem.n() && #[trigger] self@.undecided(c)
                    && self@.problem.candidates[c].weight > 0
                    ==> self@.problem.candidates[c].value * best.1 <= best.0
                    * self@.problem.candidates[c].weight,
    {
        let ghost p = self@.problem;
        let ghost state = self@;
        proof {
            self.inv_wf();
        }
        let mut value: u64 = 0;
        let mut weight: u64 = 1;
        let mut c: usize = 0;
        while c < self.problem().len()
            invariant
                self.inv(),
                state == self@,
                state.wf(),
                p == state.problem,
                c <= p.n(),
                weight > 0,
                (value == 0 && weight == 1) || exists|i: int|
                    0 <= i < p.n() && #[trigger] state.undecided(i) && value == p.candidates[i].value
                        && weight == p.candidates[i].weight,
                forall|i: int|
                    0 <= i < c && #[trigger] state.undecided(i) && p.candidates[i].weight > 0
                        ==> p.candidates[i].value * weight <= value * p.candidates[i].weight,
            decreases p.n() - c,
        {
            let candidate: Candidate = self.candidate(c);
            if !self.is_selected(c) && !self.selector.banned().contains(c) && candidate.weight > 0 {
                assert(state.undecided(c as int));
                let (v, w) = (candidate.value, candidate.weight);
                proof {
                    assert(0 <= v * weight <= 0xffff_ffff_ffff_ffff * 0xffff_ffff_ffff_ffff)
                        by (nonlinear_arith)
                        requires
                            0 <= v <= 0xffff_ffff_ffff_ffff,
                            0 <= weight <= 0xffff_ffff_ffff_ffff,
                    ;
                    assert(0 <= value * w <= 0xffff_ffff_ffff_ffff * 0xffff_ffff_ffff_ffff)
                        by (nonlinear_arith)
                        requires
                            0 <= value <= 0xffff_ffff_ffff_ffff,
                            0 <= w <= 0xffff_ffff_ffff_ffff,
                    ;
                }
                if v as u128 * weight as u128 > value as u128 * w as u128 {
                    proof {
                        assert forall|i: int|
                            0 <= i < c && #[trigger] state.undecided(i) && p.candidates[i].weight
                                > 0 implies p.candidates[i].value * w <= v * p.candidates[i].weight by {
                            let (x, y) = (p.candidates[i].value, p.candidates[i].weight);
                            assert(x * w <= v * y) by (nonlinear_arith)
                                requires
                                    x * weight <= value * y,
                                    v * weight > value * w,
                                    weight > 0,
                                    w > 0,
                                    y > 0,
                            ;
                        }
                    }
                    value = v;
                    weight = w;
                }
            }
            c = c + 1;
        }
        (value, weight)
    }

    /// Whether every undecided candidate is worth more than its weight costs at the target rate.
    pub fn every_undecided_candidate_is_worth_selecting(&self) -> (r: bool)
        requires
            self.inv(),
        ensures
            r == self@.all_worth_selecting(),
    {
        let ghost p = self@.problem;
        proof {
            self.inv_wf();
        }
        let mut c: usize = 0;
        while c < self.problem().len()
            invariant
                self.inv(),
                self@.wf(),
                p == self@.problem,
                c <= p.n(),
                forall|i: int|
                    0 <= i < c && #[trigger] self@.undecided(i)
                        ==> p.candidates[i].effective_at(p.target.fee.rate),
            decreases p.n() - c,
        {
            if !self.is_selected(c) && !self.selector.banned().contains(c) && !self.candidate(
                c,
            ).is_effective(self.target().fee.rate) {
                assert(self@.undecided(c as int));
                return false;
            }
            c = c + 1;
        }
        true
    }

    /// How much the selection overshoots the value needed to achieve the target. The transaction is
    /// valid where this is not negative; it overpays where this is positive.
    pub fn excess(&self, drain: Drain) -> (excess: i64)
        requires
            self.inv(),
            self@.problem.fits(drain),
        ensures
            excess == self@.problem.excess(self@.selected, drain),
    {
        let rate_excess: i64 = self.rate_excess(drain);
        let absolute_excess: i64 = self.absolute_excess(drain);
        let replacement_excess: i64 = self.replacement_excess(drain);
        proof {
            self@.problem.fees_bounded(self@.selected, drain.weights);
        }
        let mut excess: i64 = rate_excess;
        if absolute_excess < excess {
            excess = absolute_excess;
        }
        if replacement_excess < excess {
            excess = replacement_excess;
        }
        excess
    }

    /// How much value is missing to reach the target.
    pub fn missing(&self) -> (missing: u64)
        requires
            self.inv(),
            self@.problem.fits(Drain::spec_none()),
        ensures
            missing == model::max(
                -self@.problem.excess(self@.selected, Drain::spec_none()),
                0,
            ),
    {
        let excess: i64 = self.excess(Drain::none());
        if excess < 0 {
            proof {
                self@.problem.fees_bounded(self@.selected, DrainWeights::spec_none());
                self@.problem.selection_bounded(self@.selected);
            }
            (-excess) as u64
        } else {
            0
        }
    }

    /// How much the selection overshoots the value needed to satisfy the target's feerate, the bump
    /// of its ancestors included, whatever the other fee constraints ask.
    pub fn rate_excess(&self, drain: Drain) -> (excess: i64)
        requires
            self.inv(),
            self@.problem.fits(drain),
        ensures
            excess == self@.problem.fee_paid(self@.selected, drain.value as int)
                - self@.problem.rate_fee(self@.selected, drain.weights),
    {
        proof {
            self@.problem.fees_bounded(self@.selected, drain.weights);
            self@.problem.selection_bounded(self@.selected);
        }
        self.selected_value() as i64 - self.target().value() as i64 - drain.value as i64
            - self.implied_fee_from_feerate(drain.weights) as i64
    }

    /// As [`rate_excess`](Self::rate_excess), with the feerate applied to weight units without any
    /// conversion to vbytes.
    pub fn rate_excess_wu(&self, drain: Drain) -> (excess: i64)
        requires
            self.inv(),
            self@.problem.fits(drain),
        ensures
            excess == self@.problem.fee_paid(self@.selected, drain.value as int)
                - self@.problem.rate_fee_wu(self@.selected, drain.weights),
    {
        proof {
            self@.problem.fees_bounded(self@.selected, drain.weights);
            self@.problem.selection_bounded(self@.selected);
        }
        self.selected_value() as i64 - self.target().value() as i64 - drain.value as i64
            - self.implied_fee_from_feerate_wu(drain.weights) as i64
    }

    /// How much the selection overshoots the value needed to satisfy the target's absolute fee,
    /// whatever the other fee constraints ask.
    pub fn absolute_excess(&self, drain: Drain) -> (excess: i64)
        requires
            self.inv(),
            self@.problem.fits(drain),
        ensures
            excess == self@.problem.fee_paid(self@.selected, drain.value as int)
                - self@.problem.target.fee.absolute,
    {
        proof {
            self@.problem.selection_bounded(self@.selected);
        }
        self.selected_value() as i64 - self.target().value() as i64 - drain.value as i64
            - self.target().fee.absolute as i64
    }

    /// How much the selection overshoots the value needed to replace other transactions.
    pub fn replacement_excess(&self, drain: Drain) -> (excess: i64)
        requires
            self.inv(),
            self@.problem.fits(drain),
        ensures
            excess == self@.problem.fee_paid(self@.selected, drain.value as int)
                - self@.problem.target.fee.replacement_fee(
                self@.problem.tx_weight(self@.selected, drain.weights),
            ),
    {
        proof {
            self@.problem.fees_bounded(self@.selected, drain.weights);
            self@.problem.selection_bounded(self@.selected);
        }
        let mut replacement_excess_needed: u64 = 0;
        if let Some(replace) = self.target().fee.replace {
            replacement_excess_needed =
            replace.min_fee_to_do_replacement(self.tx_weight(drain.weights));
        }
        self.selected_value() as i64 - self.target().value() as i64 - drain.value as i64
            - replacement_excess_needed as i64
    }

    /// As [`replacement_excess`](Self::replacement_excess), with the feerate applied to weight
    /// units without any conversion to vbytes.
    pub fn replacement_excess_wu(&self, drain: Drain) -> (excess: i64)
        requires
            self.inv(),
            self@.problem.fits(drain),
        ensures
            excess == self@.problem.fee_paid(self@.selected, drain.value as int)
                - self@.problem.target.fee.replacement_fee_wu(
                self@.problem.tx_weight(self@.selected, drain.weights),
            ),
    {
        proof {
            self@.problem.fees_bounded(self@.selected, drain.weights);
            self@.problem.selection_bounded(self@.selected);
        }
        let mut replacement_excess_needed: u64 = 0;
        if let Some(replace) = self.target().fee.replace {
            replacement_excess_needed =
            replace.min_fee_to_do_replacement_wu(self.tx_weight(drain.weights));
        }
        self.selected_value() as i64 - self.target().value() as i64 - drain.value as i64
            - replacement_excess_needed as i64
    }

    /// The fee that the selection with a drain should pay to satisfy the target: the largest of
    /// what the feerate (with the bump of the ancestors), the absolute fee and the replacement
    /// rules ask.
    pub fn implied_fee(&self, drain_weights: DrainWeights) -> (fee: u64)
        requires
            self.inv(),
            self@.problem.fits((Drain { weights: drain_weights, value: 0 })),
        ensures
            fee == self@.problem.fee_owed(self@.selected, drain_weights),
    {
        proof {
            self@.problem.fees_bounded(self@.selected, drain_weights);
        }
        let mut implied_fee: u64 = self.implied_fee_from_feerate(drain_weights);
        let absolute: u64 = self.target().fee.absolute;
        if absolute > implied_fee {
            implied_fee = absolute;
        }
        if let Some(replace) = self.target().fee.replace {
            let replacement: u64 = replace.min_fee_to_do_replacement(self.tx_weight(drain_weights));
            if replacement > implied_fee {
                implied_fee = replacement;
            }
        }
        implied_fee
    }

    fn implied_fee_from_feerate(&self, drain_weights: DrainWeights) -> (fee: u64)
        requires
            self.inv(),
            self@.problem.fits((Drain { weights: drain_weights, value: 0 })),
        ensures
            fee == self@.problem.rate_fee(self@.selected, drain_weights),
    {
        proof {
            self@.problem.fees_bounded(self@.selected, drain_weights);
        }
        self.target().fee.rate.implied_fee(self.tx_weight(drain_weights)) + self.ancestor_bump()
    }

    fn implied_fee_from_feerate_wu(&self, drain_weights: DrainWeights) -> (fee: u64)
        requires
            self.inv(),
            self@.problem.fits((Drain { weights: drain_weights, value: 0 })),
        ensures
            fee == self@.problem.rate_fee_wu(self@.selected, drain_weights),
    {
        proof {
            self@.problem.fees_bounded(self@.selected, drain_weights);
        }
        self.target().fee.rate.implied_fee_wu(self.tx_weight(drain_weights)) + self.ancestor_bump()
    }

    /// A lower bound on the fee that this selection, or any that extends it, must pay.
    ///
    /// It prices the weight so far, at whichever of the vbyte and weight-unit roundings is lower,
    /// against the rate, absolute and replacement constraints, and adds to the first the
    /// [`ancestor_bump_lower_bound`](Self::ancestor_bump_lower_bound).
    pub fn fee_floor(&self) -> (floor: u64)
        requires
            self.inv(),
            self@.problem.fits(Drain::spec_none()),
        ensures
            floor == self@.fee_floor(),
    {
        proof {
            self@.problem.fees_bounded(self@.selected, DrainWeights::spec_none());
            self@.problem.lower_bound_bounded(self@.selected, self@.reachable());
            self.inv_wf();
        }
        let target: Target = self.target();
        let weight: u64 = self.tx_weight(DrainWeights::none());
        let rate_floor: u64 = lower(
            target.fee.rate.implied_fee_wu(weight),
            target.fee.rate.implied_fee(weight),
        );
        let mut floor: u64 = higher(
            rate_floor + self.ancestor_bump_lower_bound(),
            target.fee.absolute,
        );
        if let Some(replace) = target.fee.replace {
            floor = higher(
                floor,
                lower(
                    replace.min_fee_to_do_replacement_wu(weight),
                    replace.min_fee_to_do_replacement(weight),
                ),
            );
        }
        floor
    }

    /// Whether the transaction that spends this selection with a drain of `drain_weights` is no
    /// heavier than the target allows.
    pub fn is_within_max_weight(&self, drain_weights: DrainWeights) -> (r: bool)
        requires
            self.inv(),
            self@.problem.weights_fit(drain_weights),
        ensures
            r == self@.problem.within_max_weight(self@.selected, drain_weights),
    {
        match self.target().max_weight {
            Some(max_weight) => self.tx_weight(drain_weights) <= max_weight,
            None => true,
        }
    }

    /// Whether the selection covers the target with `drain`, whatever its weight.
    pub fn is_funded_with_drain(&self, drain: Drain) -> (r: bool)
        requires
            self.inv(),
            self@.problem.fits(drain),
        ensures
            r == self@.problem.funded(self@.selected, drain),
    {
        self.excess(drain) >= 0
    }

    /// Whether the selection covers the target without change, whatever its weight.
    pub fn is_funded(&self) -> (r: bool)
        requires
            self.inv(),
            self@.problem.fits(Drain::spec_none()),
        ensures
            r == self@.problem.funded(self@.selected, Drain::spec_none()),
    {
        self.is_funded_with_drain(Drain::none())
    }

    /// The value that the change output should have to drain the excess while the constraints of
    /// the target hold, or `None` if `change_policy` asks for no change.
    pub fn drain_value(&self, change_policy: ChangePolicy) -> (r: Option<u64>)
        requires
            self.inv(),
            self@.problem.fits((Drain { weights: change_policy.drain_weights, value: 0 })),
        ensures
            ({
                let excess = self@.problem.excess(
                    self@.selected,
                    (Drain { weights: change_policy.drain_weights, value: 0 }),
                );
                match r {
                    Some(value) => value == excess && excess > change_policy.min_value,
                    None => excess <= change_policy.min_value,
                }
            }),
    {
        let excess: i64 = self.excess(
            Drain { weights: change_policy.drain_weights, value: 0 },
        );
        if excess > 0 && excess as u64 > change_policy.min_value {
            Some(excess as u64)
        } else {
            None
        }
    }

    /// The change output that the selection should have according to `change_policy`, which is the
    /// drain that stands for none where it should not have one.
    #[must_use]
    pub fn drain(&self, change_policy: ChangePolicy) -> (drain: Drain)
        requires
            self.inv(),
            self@.problem.fits((Drain { weights: change_policy.drain_weights, value: 0 })),
        ensures
            drain == self@.drain(change_policy),
    {
        match self.drain_value(change_policy) {
            Some(value) => Drain { weights: change_policy.drain_weights, value },
            None => Drain::none(),
        }
    }

    /// The fee the transaction pays when its outputs take `target_value` and `drain_value`.
    pub fn fee(&self, target_value: u64, drain_value: u64) -> (fee: i64)
        requires
            self.inv(),
            self@.problem.value_of(self@.problem.everything()) <= i64::MAX,
            target_value + drain_value <= i64::MAX,
        ensures
            fee == self@.problem.value_of(self@.selected) - target_value - drain_value,
    {
        proof {
            self@.problem.selection_bounded(self@.selected);
        }
        self.selected_value() as i64 - target_value as i64 - drain_value as i64
    }

    /// The feerate the transaction has when it spends the selection for `target_outputs` with
    /// `drain`, rounded to the nearest satoshi per 1000 vbytes. `None` where it would be negative.
    pub fn implied_feerate(&self, target_outputs: TargetOutputs, drain: Drain) -> (r: Option<
        FeeRate,
    >)
        requires
            self.inv(),
            self@.problem.value_of(self@.problem.everything()) <= i64::MAX,
            target_outputs.value_sum + drain.value <= i64::MAX,
            target_outputs.n_outputs + drain.weights.n_outputs <= usize::MAX,
            TX_FIXED_FIELD_WEIGHT + self@.problem.heaviest_inputs()
                + target_outputs.weight_with_drain(drain.weights) <= u64::MAX,
        ensures
            ({
                let paid = self@.problem.value_of(self@.selected) - target_outputs.value_sum
                    - drain.value;
                let weight = TX_FIXED_FIELD_WEIGHT + self@.problem.input_weight(self@.selected)
                    + target_outputs.weight_with_drain(drain.weights);
                match r {
                    Some(rate) => paid >= 0 && rate@ == feerate::saturated(
                        (8000 * paid + weight) / (2 * weight),
                    ),
                    None => paid < 0,
                }
            }),
    {
        let fee: i64 = self.fee(target_outputs.value_sum, drain.value);
        let weight: u64 = self.weight(target_outputs, drain.weights);
        if fee < 0 {
            return None;
        }
        proof {
            self@.problem.selection_bounded(self@.selected);
        }
        let doubled: u128 = 8000 * (fee as u128) + weight as u128;
        let rounded: u128 = doubled / (2 * weight as u128);
        if rounded > u64::MAX as u128 {
            Some(FeeRate::from_sat_per_kvb(u64::MAX))
        } else {
            Some(FeeRate::from_sat_per_kvb(rounded as u64))
        }
    }

    /// The value of the selected inputs less what their weight costs at `feerate`.
    pub fn effective_value(&self, feerate: FeeRate) -> (value: i64)
        requires
            self.inv(),
            self@.problem.value_of(self@.problem.everything()) <= i64::MAX,
            feerate.fee_wu(self@.problem.heaviest_inputs()) <= i64::MAX,
        ensures
            value == self@.problem.value_of(self@.selected) - feerate.fee_wu(
                self@.problem.input_weight(self@.selected),
            ),
    {
        proof {
            let p = self@.problem;
            p.selection_bounded(self@.selected);
            feerate.fee_wu_at_most_fee(p.input_weight(self@.selected));
            feerate.fee_monotone(p.input_weight(self@.selected), p.heaviest_inputs());
        }
        self.selected_value() as i64 - feerate.implied_fee_wu(self.input_weight()) as i64
    }

    /// Whether the target appears reachable: the selection covers it, or does once every undecided
    /// candidate that is worth more than its weight costs is added.
    ///
    /// The selection is asked first because framing can make an effective candidate lower the
    /// excess. This is a heuristic: framing and ancestors make what a candidate adds depend on the
    /// rest of the selection.
    pub fn is_fundable(&self) -> (r: bool)
        requires
            self.inv(),
            self@.problem.fits(Drain::spec_none()),
        ensures
            r == self@.fundable(),
    {
        if self.is_funded() {
            return true;
        }
        let ghost state = self@;
        let ghost n = self@.problem.n();
        proof {
            self.inv_wf();
        }
        let mut local: SelectionView<'a> = self.clone();
        let mut c: usize = 0;
        while c < self.problem().len()
            invariant
                self.inv(),
                local.inv(),
                state == self@,
                state.wf(),
                n == state.problem.n(),
                c <= n,
                local@ == (SelectionState { selected: local@.selected, ..state }),
                local@.selected == Seq::new(
                    n as nat,
                    |i: int|
                        state.selected[i] || (i < c && state.undecided(i)
                            && state.problem.candidates[i].effective_at(
                            state.problem.target.fee.rate,
                        )),
                ),
            decreases n - c,
        {
            if !self.is_selected(c) && !self.selector.banned().contains(c) && self.candidate(
                c,
            ).is_effective(self.target().fee.rate) {
                local.add(c);
            }
            proof {
                assert(local@.selected =~= Seq::new(
                    n as nat,
                    |i: int|
                        state.selected[i] || (i < c + 1 && state.undecided(i)
                            && state.problem.candidates[i].effective_at(
                            state.problem.target.fee.rate,
                        )),
                ));
            }
            c = c + 1;
        }
        proof {
            assert(local@.selected =~= state.with_all_effective().selected);
        }
        local.is_funded()
    }

    /// The most that any selection extending this one could still overshoot the feerate by.
    ///
    /// The undecided candidates count only where they are worth selecting, the bump is replaced by
    /// its lower bound, and the framing that more inputs add is left out.
    pub fn best_reachable_rate_excess_wu(&self) -> (excess: i64)
        requires
            self.inv(),
            self@.problem.fits(Drain::spec_none()),
        ensures
            excess == self@.best_reachable_rate_excess(),
    {
        let (undecided_value, undecided_weight) = self.cache.undecided(
            Ghost(self@.problem),
            Ghost(self@.selected),
            Ghost(self@.reachable()),
        );
        proof {
            let p = self@.problem;
            let none = DrainWeights::spec_none();
            let rate = p.target.fee.rate;
            self.inv_wf();
            p.fees_bounded(self@.selected, none);
            p.selection_bounded(self@.selected);
            p.lower_bound_bounded(self@.selected, self@.reachable());
            self@.selected_and_worth_bounded();
            rate.fee_wu_at_most_fee(undecided_weight as int);
            let (a, b) = (p.tx_weight(self@.selected, none), undecided_weight as int);
            rate.fee_wu_of_sum(a, b);
            rate.fee_monotone(b, a + b);
            rate.fee_wu_at_most_fee(a + b);
            rate.fee_monotone(a + b, p.heaviest(none));
        }
        self.rate_excess_wu(Drain::none()) + self.ancestor_bump() as i64
            - self.ancestor_bump_lower_bound() as i64 + undecided_value as i64
            - self.target().fee.rate.implied_fee_wu(undecided_weight) as i64
    }
}

} // verus!
