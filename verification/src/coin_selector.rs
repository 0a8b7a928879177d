//! Selecting candidates and measuring the selection against its target.
use crate::ancestor_totals::AncestorTotals;
use crate::bitset;
use crate::bitset::Bitset;
use crate::candidate::Candidate;
use crate::drain::{ChangePolicy, Drain, DrainWeights};
use crate::feerate;
use crate::feerate::FeeRate;
use crate::model;
use crate::model::SelectionState;
use crate::selection_problem::{ancestor_shortfall, SelectionProblem};
use crate::target::Target;
use crate::weights;
use crate::weights::{varint_size, TX_FIXED_FIELD_WEIGHT};
use vstd::prelude::*;

verus! {

/// The least change that `SelectCoinsSRD` of Bitcoin Core aims at; a sensible default for the
/// `change_lower` argument of [`CoinSelector::select_srd`].
pub const CHANGE_LOWER: u64 = 50_000;

/// Selects and deselects coins from a set of candidate coins.
///
/// Coins can be selected by hand with methods like [`select`](Self::select), or automatically with
/// methods such as [`run_bnb`](Self::run_bnb).
#[derive(Debug)]
pub struct CoinSelector<'a> {
    problem: &'a SelectionProblem,
    selected: Bitset,
    banned: Bitset,
    candidate_order: Vec<usize>,
    /// Running sums over the selected candidates, so that queries do not rescan the selection.
    selected_value: u64,
    selected_weight: u64,
    selected_segwit_count: usize,
    selected_legacy_count: usize,
    /// Running sums over the unconfirmed ancestors the selection drags in.
    ancestors: AncestorTotals,
}

impl<'a> View for CoinSelector<'a> {
    type V = SelectionState;

    closed spec fn view(&self) -> SelectionState {
        SelectionState {
            problem: self.problem@,
            selected: self.selected@,
            banned: self.banned@,
            order: self.candidate_order@,
        }
    }
}

impl<'a> Clone for CoinSelector<'a> {
    fn clone(&self) -> (r: Self)
        ensures
            r@ == self@,
            self.inv() ==> r.inv(),
    {
        CoinSelector {
            problem: self.problem,
            selected: self.selected.clone(),
            banned: self.banned.clone(),
            candidate_order: self.candidate_order.clone(),
            selected_value: self.selected_value,
            selected_weight: self.selected_weight,
            selected_segwit_count: self.selected_segwit_count,
            selected_legacy_count: self.selected_legacy_count,
            ancestors: self.ancestors.clone(),
        }
    }
}

impl<'a> CoinSelector<'a> {
    /// Whether the running sums are those of the selection.
    pub closed spec fn inv(&self) -> bool {
        &&& self.problem.inv()
        &&& self@.wf()
        &&& self.selected_value == self.problem@.value_of(self.selected@)
        &&& self.selected_weight == self.problem@.weight_of(self.selected@)
        &&& self.selected_segwit_count == self.problem@.segwit_of(self.selected@)
        &&& self.selected_legacy_count == self.problem@.legacy_of(self.selected@)
        &&& self.ancestors.matches(self.problem@, self.selected@, self@.reachable())
    }

    /// The parts of a selector belong together.
    pub proof fn inv_wf(&self)
        requires
            self.inv(),
        ensures
            self@.wf(),
            self@.problem.m() <= u32::MAX,
    {
        self.problem.inv_shape();
    }

    /// A selector for `problem` with nothing selected, nothing banned, and the candidates in
    /// construction order.
    pub fn new(problem: &'a SelectionProblem) -> (r: Self)
        requires
            problem.inv(),
            problem@.sums_fit(),
        ensures
            r.inv(),
            r@.problem == problem@,
            r@.selected == Seq::new(problem@.candidates.len(), |c: int| false),
            r@.banned == Seq::new(problem@.candidates.len(), |c: int| false),
            r@.order == Seq::new(problem@.candidates.len(), |k: int| k as usize),
    {
        let n: usize = problem.len();
        let mut candidate_order: Vec<usize> = Vec::new();
        let mut i: usize = 0;
        while i < n
            invariant
                i <= n,
                candidate_order@ == Seq::new(i as nat, |k: int| k as usize),
            decreases n - i,
        {
            candidate_order.push(i);
            i = i + 1;
        }
        let r = CoinSelector {
            problem,
            selected: Bitset::with_capacity(n),
            banned: Bitset::with_capacity(n),
            candidate_order,
            selected_value: 0,
            selected_weight: 0,
            selected_segwit_count: 0,
            selected_legacy_count: 0,
            ancestors: AncestorTotals::new(problem),
        };
        proof {
            problem.inv_shape();
            problem@.sums_empty(r.selected@);
            assert(r@.reachable() =~= problem@.everything());
        }
        r
    }

    /// What this selector is funding.
    pub fn target(&self) -> (r: Target)
        ensures
            r == self@.problem.target,
    {
        self.problem.target()
    }

    /// The selection problem this selector is solving.
    pub fn problem(&self) -> (r: &'a SelectionProblem)
        ensures
            r@ == self@.problem,
            self.inv() ==> r.inv(),
    {
        self.problem
    }

    /// The candidate at `index`, its position in construction order.
    pub fn candidate(&self, index: usize) -> (r: Candidate)
        requires
            index < self@.problem.n(),
        ensures
            r == self@.problem.candidates[index as int],
    {
        self.problem.candidate(index)
    }

    /// Selects the candidate at `index`, its position in construction order, and tells whether it
    /// was not selected before.
    pub fn select(&mut self, index: usize) -> (inserted: bool)
        requires
            old(self).inv(),
            index < old(self)@.problem.n(),
        ensures
            final(self).inv(),
            final(self)@ == old(self)@.select(index as int),
            inserted == !old(self)@.selected[index as int],
    {
        let ghost p = self.problem@;
        let ghost s = self.selected@;
        let ghost r = self@.reachable();
        let ghost t = s.update(index as int, true);
        let inserted: bool = self.selected.insert(index);
        if inserted {
            proof {
                p.sums_insert(s, index as int);
                p.selection_bounded(t);
            }
            let candidate: Candidate = self.problem.candidate(index);
            self.selected_value = self.selected_value + candidate.value;
            self.selected_weight = self.selected_weight + candidate.weight;
            self.selected_segwit_count = self.selected_segwit_count + candidate.segwit_count;
            self.selected_legacy_count = self.selected_legacy_count + candidate.legacy_count;
            let ghost mut left = r;
            if !self.banned.contains(index) {
                self.ancestors.remove_reachable(self.problem, index, Ghost(s), Ghost(r));
                proof {
                    left = r.update(index as int, false);
                }
            }
            self.ancestors.add_selected(self.problem, index, Ghost(s), Ghost(left));
            proof {
                assert(left =~= self@.reachable());
            }
        } else {
            proof {
                assert(t =~= s);
            }
        }
        inserted
    }

    /// Deselects the candidate at `index`, its position in construction order, and tells whether
    /// it was selected before.
    pub fn deselect(&mut self, index: usize) -> (removed: bool)
        requires
            old(self).inv(),
        ensures
            final(self).inv(),
            removed == (index < old(self)@.problem.n() && old(self)@.selected[index as int]),
            final(self)@ == (if removed {
                old(self)@.deselect(index as int)
            } else {
                old(self)@
            }),
    {
        let ghost p = self.problem@;
        let ghost s = self.selected@;
        let ghost r = self@.reachable();
        let removed: bool = self.selected.remove(index);
        if removed {
            let ghost t = s.update(index as int, false);
            proof {
                p.sums_insert(t, index as int);
                assert(t.update(index as int, true) =~= s);
                p.selection_bounded(t);
            }
            let candidate: Candidate = self.problem.candidate(index);
            self.selected_value = self.selected_value - candidate.value;
            self.selected_weight = self.selected_weight - candidate.weight;
            self.selected_segwit_count = self.selected_segwit_count - candidate.segwit_count;
            self.selected_legacy_count = self.selected_legacy_count - candidate.legacy_count;
            self.ancestors.sub_selected(self.problem, index, Ghost(s), Ghost(r));
            let ghost mut left = r;
            if !self.banned.contains(index) {
                self.ancestors.add_reachable(self.problem, index, Ghost(t), Ghost(r));
                proof {
                    left = r.update(index as int, true);
                }
            }
            proof {
                assert(left =~= self@.reachable());
            }
        } else {
            proof {
                assert(self.selected@ =~= s);
            }
        }
        removed
    }

    /// Bans the candidate at `index` from being selected automatically. It no longer shows up among
    /// the unselected ones, but it can still be selected by hand.
    pub fn ban(&mut self, index: usize)
        requires
            old(self).inv(),
            index < old(self)@.problem.n(),
        ensures
            final(self).inv(),
            final(self)@ == old(self)@.ban(index as int),
    {
        let ghost s = self.selected@;
        let ghost r = self@.reachable();
        let ghost b = self.banned@;
        if self.banned.insert(index) && !self.selected.contains(index) {
            self.ancestors.remove_reachable(self.problem, index, Ghost(s), Ghost(r));
            proof {
                assert(r.update(index as int, false) =~= self@.reachable());
            }
        } else {
            proof {
                assert(r =~= self@.reachable());
            }
        }
    }

    /// Lifts the ban on the candidate at `index`.
    pub fn unban(&mut self, index: usize)
        requires
            old(self).inv(),
        ensures
            final(self).inv(),
            final(self)@ == (if index < old(self)@.problem.n() {
                old(self)@.unban(index as int)
            } else {
                old(self)@
            }),
    {
        let ghost s = self.selected@;
        let ghost r = self@.reachable();
        if self.banned.remove(index) && !self.selected.contains(index) {
            self.ancestors.add_reachable(self.problem, index, Ghost(s), Ghost(r));
            proof {
                assert(r.update(index as int, true) =~= self@.reachable());
            }
        } else {
            proof {
                assert(r =~= self@.reachable());
            }
        }
    }

    /// The candidates that are banned.
    pub fn banned(&self) -> (r: &Bitset)
        ensures
            r@ == self@.banned,
    {
        &self.banned
    }

    /// Whether the candidate at `index` is selected.
    pub fn is_selected(&self, index: usize) -> (r: bool)
        ensures
            r == (index < self@.selected.len() && self@.selected[index as int]),
    {
        self.selected.contains(index)
    }

    /// Whether no candidate is selected.
    pub fn is_empty(&self) -> (r: bool)
        ensures
            r == bitset::holds_nothing(self@.selected),
    {
        self.selected.is_empty()
    }

    /// The indices of the selected candidates.
    pub fn selected_indices(&self) -> (r: &Bitset)
        ensures
            r@ == self@.selected,
    {
        &self.selected
    }

    /// The running totals over the ancestors of the selection.
    pub fn ancestor_totals(&self) -> (r: &AncestorTotals)
        requires
            self.inv(),
        ensures
            r.matches(self@.problem, self@.selected, self@.reachable()),
    {
        &self.ancestors
    }

    /// The weight of the inputs, including the witness header and the varint for their number.
    pub fn input_weight(&self) -> (weight: u64)
        requires
            self.inv(),
        ensures
            weight == self@.problem.input_weight(self@.selected),
    {
        proof {
            self.problem@.selection_bounded(self.selected@);
        }
        let input_count: usize = self.selected_segwit_count + self.selected_legacy_count;
        let input_varint_weight: u64 = varint_size(input_count) * 4;
        let segwit_extra_weight: u64 = if self.selected_segwit_count > 0 {
            // The witness header, and one unit for each legacy input: their weight leaves out the
            // length of their empty witness.
            2 + self.selected_legacy_count as u64
        } else {
            0
        };
        input_varint_weight + self.selected_weight + segwit_extra_weight
    }

    /// The value of all selected candidates.
    pub fn selected_value(&self) -> (value: u64)
        requires
            self.inv(),
        ensures
            value == self@.problem.value_of(self@.selected),
    {
        self.selected_value
    }

    /// The fee that this selection pays *on top of* its own feerate so that the unconfirmed
    /// ancestors it drags in reach the target rate.
    ///
    /// The ancestors are taken once each, weight and fee netted across them: an ancestor that
    /// overpays offsets one that pays too little, but never funds the transaction itself.
    pub fn ancestor_bump(&self) -> (bump: u64)
        requires
            self.inv(),
        ensures
            bump == self@.problem.bump(self@.selected),
    {
        proof {
            self.problem.inv_shape();
        }
        if !self.problem.has_ancestors() {
            proof {
                self@.problem.no_ancestors_no_bump(self@.selected);
            }
            return 0;
        }
        let sum: (u64, u64) = self.ancestors.selected(
            Ghost(self.problem@),
            Ghost(self.selected@),
            Ghost(self@.reachable()),
        );
        ancestor_shortfall(self.target().fee.rate, sum)
    }

    /// The least [`ancestor_bump`](Self::ancestor_bump) that this selection, or any that extends
    /// it, could still owe.
    ///
    /// It credits every surplus that could still arrive: ancestors that one candidate alone drags
    /// in are netted as a group, those that several candidates drag in are credited one by one.
    pub fn ancestor_bump_lower_bound(&self) -> (bound: u64)
        requires
            self.inv(),
        ensures
            bound == self@.problem.bump_lower_bound(self@.selected, self@.reachable()),
    {
        proof {
            self.problem.inv_shape();
        }
        if !self.problem.has_ancestors() {
            proof {
                self@.problem.no_ancestors_no_bump(self@.selected);
                self@.problem.no_ancestors_no_lower_bound(self@.selected, self@.reachable());
            }
            return 0;
        }
        let (weight, fee) = self.ancestors.selected(
            Ghost(self.problem@),
            Ghost(self.selected@),
            Ghost(self@.reachable()),
        );
        let surplus: u64 = self.ancestors.reachable_surplus(
            Ghost(self.problem@),
            Ghost(self.selected@),
            Ghost(self@.reachable()),
        );
        bump_floor(self.target().fee.rate, weight, fee, surplus)
    }

    /// The weight of the transaction that spends this selection with a drain.
    pub fn weight(&self, drain_weight: DrainWeights) -> (weight: u64)
        requires
            self.inv(),
            self@.problem.weights_fit(drain_weight),
        ensures
            weight == self@.problem.tx_weight(self@.selected, drain_weight),
    {
        proof {
            self.problem@.selection_bounded(self.selected@);
        }
        TX_FIXED_FIELD_WEIGHT + self.input_weight() + self.target().outputs.output_weight_with_drain(
            drain_weight,
        )
    }

    /// How much the selection overshoots the value needed to achieve the target. The transaction is
    /// valid where this is not negative; it overpays where this is positive.
    pub fn excess(&self, drain: Drain) -> (excess: i64)
        requires
            self.inv(),
            self@.problem.fits(drain),
        ensures
            excess == self@.problem.excess(self@.selected, drain),
    {
        let rate_excess: i64 = self.rate_excess(drain);
        let absolute_excess: i64 = self.absolute_excess(drain);
        let replacement_excess: i64 = self.replacement_excess(drain);
        proof {
            self.problem@.fees_bounded(self.selected@, drain.weights);
        }
        let mut excess: i64 = rate_excess;
        if absolute_excess < excess {
            excess = absolute_excess;
        }
        if replacement_excess < excess {
            excess = replacement_excess;
        }
        excess
    }

    /// How much value is missing to reach the target.
    pub fn missing(&self) -> (missing: u64)
        requires
            self.inv(),
            self@.problem.fits(Drain::spec_none()),
        ensures
            missing == model::max(
                -self@.problem.excess(self@.selected, Drain::spec_none()),
                0,
            ),
    {
        let excess: i64 = self.excess(Drain::none());
        if excess < 0 {
            proof {
                self.problem@.fees_bounded(self.selected@, DrainWeights::spec_none());
                self.problem@.selection_bounded(self.selected@);
            }
            (-excess) as u64
        } else {
            0
        }
    }

    /// How much the selection overshoots the value needed to satisfy the target's feerate, the bump
    /// of its ancestors included, whatever the other fee constraints ask.
    pub fn rate_excess(&self, drain: Drain) -> (excess: i64)
        requires
            self.inv(),
            self@.problem.fits(drain),
        ensures
            excess == self@.problem.fee_paid(self@.selected, drain.value as int)
                - self@.problem.rate_fee(self@.selected, drain.weights),
    {
        proof {
            self.problem@.fees_bounded(self.selected@, drain.weights);
            self.problem@.selection_bounded(self.selected@);
        }
        self.selected_value() as i64 - self.target().value() as i64 - drain.value as i64
            - self.implied_fee_from_feerate(drain.weights) as i64
    }

    /// As [`rate_excess`](Self::rate_excess), with the feerate applied to weight units without any
    /// conversion to vbytes.
    pub fn rate_excess_wu(&self, drain: Drain) -> (excess: i64)
        requires
            self.inv(),
            self@.problem.fits(drain),
        ensures
            excess == self@.problem.fee_paid(self@.selected, drain.value as int)
                - self@.problem.rate_fee_wu(self@.selected, drain.weights),
    {
        proof {
            self.problem@.fees_bounded(self.selected@, drain.weights);
            self.problem@.selection_bounded(self.selected@);
        }
        self.selected_value() as i64 - self.target().value() as i64 - drain.value as i64
            - self.implied_fee_from_feerate_wu(drain.weights) as i64
    }

    /// How much the selection overshoots the value needed to satisfy the target's absolute fee,
    /// whatever the other fee constraints ask.
    pub fn absolute_excess(&self, drain: Drain) -> (excess: i64)
        requires
            self.inv(),
            self@.problem.fits(drain),
        ensures
            excess == self@.problem.fee_paid(self@.selected, drain.value as int)
                - self@.problem.target.fee.absolute,
    {
        proof {
            self.problem@.selection_bounded(self.selected@);
        }
        self.selected_value() as i64 - self.target().value() as i64 - drain.value as i64
            - self.target().fee.absolute as i64
    }

    /// How much the selection overshoots the value needed to replace other transactions.
    pub fn replacement_excess(&self, drain: Drain) -> (excess: i64)
        requires
            self.inv(),
            self@.problem.fits(drain),
        ensures
            excess == self@.problem.fee_paid(self@.selected, drain.value as int)
                - self@.problem.target.fee.replacement_fee(
                self@.problem.tx_weight(self@.selected, drain.weights),
            ),
    {
        proof {
            self.problem@.fees_bounded(self.selected@, drain.weights);
            self.problem@.selection_bounded(self.selected@);
        }
        let mut replacement_excess_needed: u64 = 0;
        if let Some(replace) = self.target().fee.replace {
            replacement_excess_needed =
            replace.min_fee_to_do_replacement(self.weight(drain.weights));
        }
        self.selected_value() as i64 - self.target().value() as i64 - drain.value as i64
            - replacement_excess_needed as i64
    }

    /// As [`replacement_excess`](Self::replacement_excess), with the feerate applied to weight
    /// units without any conversion to vbytes.
    pub fn replacement_excess_wu(&self, drain: Drain) -> (excess: i64)
        requires
            self.inv(),
            self@.problem.fits(drain),
        ensures
            excess == self@.problem.fee_paid(self@.selected, drain.value as int)
                - self@.problem.target.fee.replacement_fee_wu(
                self@.problem.tx_weight(self@.selected, drain.weights),
            ),
    {
        proof {
            self.problem@.fees_bounded(self.selected@, drain.weights);
            self.problem@.selection_bounded(self.selected@);
        }
        let mut replacement_excess_needed: u64 = 0;
        if let Some(replace) = self.target().fee.replace {
            replacement_excess_needed =
            replace.min_fee_to_do_replacement_wu(self.weight(drain.weights));
        }
        self.selected_value() as i64 - self.target().value() as i64 - drain.value as i64
            - replacement_excess_needed as i64
    }

    /// The feerate the transaction has when it spends this selection with `drain`, rounded to the
    /// nearest satoshi per 1000 vbytes. `None` where it would be negative.
    ///
    /// This is the feerate of the transaction alone, without the ancestors it drags in.
    pub fn implied_feerate(&self, drain: Drain) -> (r: Option<FeeRate>)
        requires
            self.inv(),
            self@.problem.fits(drain),
        ensures
            ({
                let paid = self@.problem.fee_paid(self@.selected, drain.value as int);
                let weight = self@.problem.tx_weight(self@.selected, drain.weights);
                match r {
                    Some(rate) => paid >= 0 && rate@ == feerate::saturated(
                        (8000 * paid + weight) / (2 * weight),
                    ),
                    None => paid < 0,
                }
            }),
    {
        proof {
            self.problem@.fees_bounded(self.selected@, drain.weights);
            self.problem@.selection_bounded(self.selected@);
        }
        let numerator: i64 = self.selected_value() as i64 - self.target().outputs.value_sum as i64
            - drain.value as i64;
        let denom: u64 = self.weight(drain.weights);
        if numerator < 0 {
            return None;
        }
        let doubled: u128 = 8000 * (numerator as u128) + denom as u128;
        let rounded: u128 = doubled / (2 * denom as u128);
        if rounded > u64::MAX as u128 {
            Some(FeeRate::from_sat_per_kvb(u64::MAX))
        } else {
            Some(FeeRate::from_sat_per_kvb(rounded as u64))
        }
    }

    /// The fee that the selection with a drain should pay to satisfy the target: the largest of
    /// what the feerate (with the bump of the ancestors), the absolute fee and the replacement
    /// rules ask.
    pub fn implied_fee(&self, drain_weights: DrainWeights) -> (fee: u64)
        requires
            self.inv(),
            self@.problem.fits((Drain { weights: drain_weights, value: 0 })),
        ensures
            fee == self@.problem.fee_owed(self@.selected, drain_weights),
    {
        proof {
            self.problem@.fees_bounded(self.selected@, drain_weights);
        }
        let mut implied_fee: u64 = self.implied_fee_from_feerate(drain_weights);
        let absolute: u64 = self.target().fee.absolute;
        if absolute > implied_fee {
            implied_fee = absolute;
        }
        if let Some(replace) = self.target().fee.replace {
            let replacement: u64 = replace.min_fee_to_do_replacement(self.weight(drain_weights));
            if replacement > implied_fee {
                implied_fee = replacement;
            }
        }
        implied_fee
    }

    fn implied_fee_from_feerate(&self, drain_weights: DrainWeights) -> (fee: u64)
        requires
            self.inv(),
            self@.problem.fits((Drain { weights: drain_weights, value: 0 })),
        ensures
            fee == self@.problem.rate_fee(self@.selected, drain_weights),
    {
        proof {
            self.problem@.fees_bounded(self.selected@, drain_weights);
        }
        self.target().fee.rate.implied_fee(self.weight(drain_weights)) + self.ancestor_bump()
    }

    fn implied_fee_from_feerate_wu(&self, drain_weights: DrainWeights) -> (fee: u64)
        requires
            self.inv(),
            self@.problem.fits((Drain { weights: drain_weights, value: 0 })),
        ensures
            fee == self@.problem.rate_fee_wu(self@.selected, drain_weights),
    {
        proof {
            self.problem@.fees_bounded(self.selected@, drain_weights);
        }
        self.target().fee.rate.implied_fee_wu(self.weight(drain_weights)) + self.ancestor_bump()
    }

    /// A lower bound on the fee that this selection, or any that extends it, must pay.
    ///
    /// It prices the weight so far, at whichever of the vbyte and weight-unit roundings is lower,
    /// against the rate, absolute and replacement constraints, and adds to the first the
    /// [`ancestor_bump_lower_bound`](Self::ancestor_bump_lower_bound).
    pub fn fee_floor(&self) -> (floor: u64)
        requires
            self.inv(),
            self@.problem.fits(Drain::spec_none()),
        ensures
            floor == self@.fee_floor(),
    {
        proof {
            self.problem@.fees_bounded(self.selected@, DrainWeights::spec_none());
            self.problem@.lower_bound_bounded(self.selected@, self@.reachable());
            self.problem.inv_shape();
        }
        let target: Target = self.target();
        let weight: u64 = self.weight(DrainWeights::none());
        let rate_floor: u64 = lower(
            target.fee.rate.implied_fee_wu(weight),
            target.fee.rate.implied_fee(weight),
        );
        let mut floor: u64 = higher(
            rate_floor + self.ancestor_bump_lower_bound(),
            target.fee.absolute,
        );
        if let Some(replace) = target.fee.replace {
            floor = higher(
                floor,
                lower(
                    replace.min_fee_to_do_replacement_wu(weight),
                    replace.min_fee_to_do_replacement(weight),
                ),
            );
        }
        floor
    }

    /// The fee the selection pays when the change takes `drain_value`. It is negative when the
    /// outputs are worth more than the inputs.
    pub fn fee(&self, drain_value: u64) -> (fee: i64)
        requires
            self.inv(),
            self@.problem.value_of(self@.problem.everything()) <= i64::MAX,
            self@.problem.target.outputs.value_sum + drain_value <= i64::MAX,
        ensures
            fee == self@.problem.fee_paid(self@.selected, drain_value as int),
    {
        proof {
            self.problem@.selection_bounded(self.selected@);
        }
        self.selected_value() as i64 - self.target().value() as i64 - drain_value as i64
    }

    /// The value of the selected inputs less the fee needed to pay for their weight. The bump of
    /// the ancestors they drag in is not charged.
    pub fn effective_value(&self) -> (value: i64)
        requires
            self.inv(),
            self@.problem.fits(Drain::spec_none()),
        ensures
            value == self@.problem.value_of(self@.selected) - self@.problem.target.fee.rate.fee_wu(
                self@.problem.input_weight(self@.selected),
            ),
    {
        proof {
            let p = self.problem@;
            let rate = p.target.fee.rate;
            p.selection_bounded(self.selected@);
            p.fees_bounded(self.selected@, DrainWeights::spec_none());
            rate.fee_wu_at_most_fee(p.input_weight(self.selected@));
            rate.fee_monotone(
                p.input_weight(self.selected@),
                p.tx_weight(self.selected@, DrainWeights::spec_none()),
            );
        }
        self.selected_value() as i64 - self.target().fee.rate.implied_fee_wu(
            self.input_weight(),
        ) as i64
    }

    /// All candidates with their index, in the order in which they are taken.
    pub fn candidates(&self) -> (list: Vec<(usize, Candidate)>)
        requires
            self.inv(),
        ensures
            list@.len() == self@.problem.n(),
            forall|k: int|
                0 <= k < list@.len() ==> #[trigger] list@[k] == (
                    self@.order[k],
                    self@.problem.candidates[self@.order[k] as int],
                ),
    {
        let mut list: Vec<(usize, Candidate)> = Vec::new();
        let mut k: usize = 0;
        while k < self.candidate_order.len()
            invariant
                self.inv(),
                k <= self.candidate_order@.len(),
                list@.len() == k,
                forall|j: int|
                    0 <= j < k ==> #[trigger] list@[j] == (
                        self@.order[j],
                        self@.problem.candidates[self@.order[j] as int],
                    ),
            decreases self.candidate_order@.len() - k,
        {
            let index: usize = self.candidate_order[k];
            list.push((index, self.problem.candidate(index)));
            k = k + 1;
        }
        list
    }

    /// The order in which candidates are taken, as indices in construction order.
    pub(crate) fn candidate_order(&self) -> (r: &[usize])
        ensures
            r@ == self@.order,
    {
        self.candidate_order.as_slice()
    }

    /// Takes the candidates in another order.
    pub(crate) fn set_candidate_order(&mut self, order: Vec<usize>)
        requires
            old(self).inv(),
            model::is_order(order@, old(self)@.problem.n()),
        ensures
            final(self).inv(),
            final(self)@ == (SelectionState { order: order@, ..old(self)@ }),
    {
        let ghost r = self@.reachable();
        self.candidate_order = order;
        proof {
            assert(self@.reachable() =~= r);
        }
    }

    /// The selected candidates with their index, by ascending index.
    pub fn selected(&self) -> (list: Vec<(usize, Candidate)>)
        requires
            self.inv(),
        ensures
            bitset::lists(Seq::new(list@.len(), |k: int| list@[k].0), self@.selected),
            forall|k: int|
                0 <= k < list@.len() ==> (#[trigger] list@[k]).1
                    == self@.problem.candidates[list@[k].0 as int],
    {
        let indices: Vec<usize> = self.selected.iter();
        let mut list: Vec<(usize, Candidate)> = Vec::new();
        let mut k: usize = 0;
        while k < indices.len()
            invariant
                self.inv(),
                bitset::lists(indices@, self@.selected),
                k <= indices@.len(),
                list@.len() == k,
                forall|j: int| 0 <= j < k ==> (#[trigger] list@[j]).0 == indices@[j],
                forall|j: int|
                    0 <= j < k ==> (#[trigger] list@[j]).1
                        == self@.problem.candidates[list@[j].0 as int],
            decreases indices@.len() - k,
        {
            let index: usize = indices[k];
            list.push((index, self.problem.candidate(index)));
            k = k + 1;
        }
        proof {
            assert(Seq::new(list@.len(), |k: int| list@[k].0) =~= indices@);
        }
        list
    }

    /// Picks from a slice, which is ordered as the candidates were at construction, the items whose
    /// index is selected.
    pub fn apply_selection<'b, T>(&self, candidates: &'b [T]) -> (list: Vec<&'b T>)
        requires
            self.inv(),
            forall|c: int|
                0 <= c < self@.problem.n() && #[trigger] self@.selected[c] ==> c < candidates@.len(),
        ensures
            exists|indices: Seq<usize>|
                {
                    &&& #[trigger] bitset::lists(indices, self@.selected)
                    &&& list@.len() == indices.len()
                    &&& forall|k: int|
                        0 <= k < indices.len() ==> *#[trigger] list@[k]
                            == candidates@[indices[k] as int]
                },
    {
        let indices: Vec<usize> = self.selected.iter();
        let mut list: Vec<&'b T> = Vec::new();
        let mut k: usize = 0;
        while k < indices.len()
            invariant
                self.inv(),
                forall|c: int|
                    0 <= c < self@.problem.n() && #[trigger] self@.selected[c] ==> c
                        < candidates@.len(),
                bitset::lists(indices@, self@.selected),
                k <= indices@.len(),
                list@.len() == k,
                forall|j: int|
                    0 <= j < k ==> *#[trigger] list@[j] == candidates@[indices@[j] as int],
            decreases indices@.len() - k,
        {
            assert(self@.selected[indices@[k as int] as int]);
            list.push(&candidates[indices[k]]);
            k = k + 1;
        }
        list
    }

    /// The indices of the unselected candidates, in the order in which they are taken. Banned ones
    /// are left out.
    pub fn unselected_indices(&self) -> (list: Vec<usize>)
        requires
            self.inv(),
        ensures
            list@ == self@.unselected(),
    {
        let ghost p = |c: usize| self@.undecided(c as int);
        let mut list: Vec<usize> = Vec::new();
        let mut k: usize = 0;
        proof {
            reveal(Seq::filter);
            assert(self@.order.take(0) =~= Seq::<usize>::empty());
        }
        while k < self.candidate_order.len()
            invariant
                self.inv(),
                p == (|c: usize| self@.undecided(c as int)),
                k <= self.candidate_order@.len(),
                list@ == self@.order.take(k as int).filter(p),
            decreases self.candidate_order@.len() - k,
        {
            let index: usize = self.candidate_order[k];
            proof {
                reveal(Seq::filter);
                assert(self@.order.take(k + 1).drop_last() =~= self@.order.take(k as int));
                assert(self@.order[k as int] < self@.problem.n());
            }
            if !(self.selected.contains(index) || self.banned.contains(index)) {
                list.push(index);
            }
            k = k + 1;
        }
        proof {
            assert(self@.order.take(k as int) =~= self@.order);
        }
        list
    }

    /// The unselected candidates with their index, in the order in which they are taken.
    pub fn unselected(&self) -> (list: Vec<(usize, Candidate)>)
        requires
            self.inv(),
        ensures
            list@.len() == self@.unselected().len(),
            forall|k: int|
                0 <= k < list@.len() ==> #[trigger] list@[k] == (
                    self@.unselected()[k],
                    self@.problem.candidates[self@.unselected()[k] as int],
                ),
    {
        let indices: Vec<usize> = self.unselected_indices();
        let mut list: Vec<(usize, Candidate)> = Vec::new();
        let mut k: usize = 0;
        proof {
            self@.unselected_lists();
        }
        while k < indices.len()
            invariant
                self.inv(),
                indices@ == self@.unselected(),
                forall|j: int| 0 <= j < indices@.len() ==> #[trigger] indices@[j] < self@.problem.n(),
                k <= indices@.len(),
                list@.len() == k,
                forall|j: int|
                    0 <= j < k ==> #[trigger] list@[j] == (
                        indices@[j],
                        self@.problem.candidates[indices@[j] as int],
                    ),
            decreases indices@.len() - k,
        {
            let index: usize = indices[k];
            list.push((index, self.problem.candidate(index)));
            k = k + 1;
        }
        list
    }

    /// The weight of the lightest unselected candidate, or `None` when nothing is left to add.
    ///
    /// Any selection that adds to this one takes on at least that much input weight.
    pub fn min_input_weight(&self) -> (r: Option<u64>)
        requires
            self.inv(),
        ensures
            ({
                let u = self@.unselected();
                let candidates = self@.problem.candidates;
                match r {
                    Some(weight) => {
                        &&& exists|k: int|
                            0 <= k < u.len() && candidates[#[trigger] u[k] as int].weight == weight
                        &&& forall|k: int|
                            0 <= k < u.len() ==> candidates[#[trigger] u[k] as int].weight >= weight
                    },
                    None => u.len() == 0,
                }
            }),
    {
        let list: Vec<(usize, Candidate)> = self.unselected();
        let ghost u = self@.unselected();
        let ghost candidates = self@.problem.candidates;
        if list.len() == 0 {
            return None;
        }
        let mut lightest: u64 = list[0].1.weight;
        assert(candidates[u[0] as int].weight == lightest);
        let mut k: usize = 1;
        while k < list.len()
            invariant
                list@.len() == u.len(),
                forall|j: int|
                    0 <= j < list@.len() ==> #[trigger] list@[j] == (u[j], candidates[u[j] as int]),
                1 <= k <= list@.len(),
                exists|j: int|
                    0 <= j < u.len() && candidates[#[trigger] u[j] as int].weight == lightest,
                forall|j: int| 0 <= j < k ==> candidates[#[trigger] u[j] as int].weight >= lightest,
            decreases list@.len() - k,
        {
            let weight: u64 = list[k].1.weight;
            if weight < lightest {
                lightest = weight;
                assert(candidates[u[k as int] as int].weight == lightest);
            }
            k = k + 1;
        }
        Some(lightest)
    }

    /// The position of the first undecided candidate at or after `start`, in the order in which
    /// they are taken.
    pub(crate) fn next_undecided(&self, start: usize) -> (r: Option<usize>)
        requires
            self.inv(),
            start <= self@.problem.n(),
        ensures
            match r {
                Some(k) => {
                    &&& start <= k < self@.problem.n()
                    &&& self@.undecided(self@.order[k as int] as int)
                    &&& forall|j: int|
                        start <= j < k ==> !self@.undecided(#[trigger] self@.order[j] as int)
                },
                None => forall|j: int|
                    start <= j < self@.problem.n() ==> !self@.undecided(
                        #[trigger] self@.order[j] as int,
                    ),
            },
    {
        let mut k: usize = start;
        while k < self.candidate_order.len()
            invariant
                self.inv(),
                start <= k <= self@.problem.n(),
                forall|j: int|
                    start <= j < k ==> !self@.undecided(#[trigger] self@.order[j] as int),
            decreases self@.problem.n() - k,
        {
            let index: usize = self.candidate_order[k];
            assert(self@.order[k as int] < self@.problem.n());
            if !(self.selected.contains(index) || self.banned.contains(index)) {
                return Some(k);
            }
            k = k + 1;
        }
        None
    }

    /// Where the first undecided candidate stands is what comes first among the unselected ones.
    proof fn first_of_order(state: SelectionState, k: int)
        requires
            state.wf(),
            0 <= k < state.problem.n(),
            state.undecided(state.order[k] as int),
            forall|j: int| 0 <= j < k ==> !state.undecided(#[trigger] state.order[j] as int),
        ensures
            state.unselected().len() > 0,
            state.unselected()[0] == state.order[k],
    {
        reveal(Seq::filter);
        let p = |c: usize| state.undecided(c as int);
        let (a, b) = (state.order.take(k), state.order.skip(k));
        assert(state.order =~= a + b);
        Seq::filter_distributes_over_add(a, b, p);
        a.lemma_all_neg_filter_empty(p);
        let (x, y) = (seq![state.order[k]], state.order.skip(k + 1));
        assert(b =~= x + y);
        Seq::filter_distributes_over_add(x, y, p);
        assert(x.drop_last() =~= Seq::<usize>::empty());
        assert(x.filter(p) =~= x);
        assert((a.filter(p) + (x.filter(p) + y.filter(p)))[0] == state.order[k]);
    }

    /// Where no candidate of the order is undecided, none is unselected.
    proof fn nothing_in_order(state: SelectionState)
        requires
            state.wf(),
            forall|j: int|
                0 <= j < state.problem.n() ==> !state.undecided(#[trigger] state.order[j] as int),
        ensures
            state.unselected().len() == 0,
    {
        state.order.lemma_all_neg_filter_empty(|c: usize| state.undecided(c as int));
    }

    /// Selects the next unselected candidate in the order in which they are taken. `false` where
    /// there is none.
    pub fn select_next(&mut self) -> (selected: bool)
        requires
            old(self).inv(),
        ensures
            final(self).inv(),
            selected == (old(self)@.unselected().len() > 0),
            final(self)@ == (if selected {
                old(self)@.select(old(self)@.unselected()[0] as int)
            } else {
                old(self)@
            }),
    {
        match self.next_undecided(0) {
            Some(k) => {
                proof {
                    Self::first_of_order(self@, k as int);
                    assert(self@.order[k as int] < self@.problem.n());
                }
                let index: usize = self.candidate_order[k];
                self.select(index);
                true
            },
            None => {
                proof {
                    Self::nothing_in_order(self@);
                }
                false
            },
        }
    }

    /// Whether no unselected candidate is left.
    pub fn is_exhausted(&self) -> (r: bool)
        requires
            self.inv(),
        ensures
            r == (self@.unselected().len() == 0),
    {
        match self.next_undecided(0) {
            Some(k) => {
                proof {
                    Self::first_of_order(self@, k as int);
                }
                false
            },
            None => {
                proof {
                    Self::nothing_in_order(self@);
                }
                true
            },
        }
    }

    /// Whether the transaction that spends this selection with a drain of `drain_weights` is no
    /// heavier than the target allows.
    pub fn is_within_max_weight(&self, drain_weights: DrainWeights) -> (r: bool)
        requires
            self.inv(),
            self@.problem.weights_fit(drain_weights),
        ensures
            r == self@.problem.within_max_weight(self@.selected, drain_weights),
    {
        match self.target().max_weight {
            Some(max_weight) => self.weight(drain_weights) <= max_weight,
            None => true,
        }
    }

    /// Whether the selection covers the target with `drain`, whatever its weight.
    pub fn is_funded_with_drain(&self, drain: Drain) -> (r: bool)
        requires
            self.inv(),
            self@.problem.fits(drain),
        ensures
            r == self@.problem.funded(self@.selected, drain),
    {
        self.excess(drain) >= 0
    }

    /// Whether the selection covers the target without change, whatever its weight.
    pub fn is_funded(&self) -> (r: bool)
        requires
            self.inv(),
            self@.problem.fits(Drain::spec_none()),
        ensures
            r == self@.problem.funded(self@.selected, Drain::spec_none()),
    {
        self.is_funded_with_drain(Drain::none())
    }

    /// The value that the change output should have to drain the excess while the constraints of
    /// the target hold, or `None` if `change_policy` asks for no change.
    pub fn drain_value(&self, change_policy: ChangePolicy) -> (r: Option<u64>)
        requires
            self.inv(),
            self@.problem.fits((Drain { weights: change_policy.drain_weights, value: 0 })),
        ensures
            ({
                let excess = self@.problem.excess(
                    self@.selected,
                    (Drain { weights: change_policy.drain_weights, value: 0 }),
                );
                match r {
                    Some(value) => value == excess && excess > change_policy.min_value,
                    None => excess <= change_policy.min_value,
                }
            }),
    {
        let excess: i64 = self.excess(
            Drain { weights: change_policy.drain_weights, value: 0 },
        );
        if excess > 0 && excess as u64 > change_policy.min_value {
            Some(excess as u64)
        } else {
            None
        }
    }

    /// The change output that the selection should have according to `change_policy`, which is the
    /// drain that stands for none where it should not have one.
    #[must_use]
    pub fn drain(&self, change_policy: ChangePolicy) -> (drain: Drain)
        requires
            self.inv(),
            self@.problem.fits((Drain { weights: change_policy.drain_weights, value: 0 })),
        ensures
            drain == self@.drain(change_policy),
    {
        match self.drain_value(change_policy) {
            Some(value) => Drain { weights: change_policy.drain_weights, value },
            None => Drain::none(),
        }
    }

    /// The unconfirmed ancestors the selection drags in: the union over the selected candidates.
    pub fn selected_ancestors(&self) -> (r: Bitset)
        requires
            self.inv(),
        ensures
            r@ == self@.problem.union(self@.selected),
    {
        proof {
            self.inv_wf();
        }
        dragged_by(self.problem, &self.selected)
    }

    /// The unconfirmed ancestors that are not dragged in yet but that an unselected candidate
    /// drags in. These are the ancestors that a selection extending this one can add.
    pub fn addable_ancestors(&self) -> (r: Bitset)
        requires
            self.inv(),
        ensures
            r@ == Seq::new(
                self@.problem.ancestors.len(),
                |a: int|
                    self@.problem.dragged(self@.reachable(), a) && !self@.problem.dragged(
                        self@.selected,
                        a,
                    ),
            ),
    {
        proof {
            self.inv_wf();
        }
        let n: usize = self.problem.len();
        let mut reachable: Bitset = Bitset::with_capacity(n);
        let mut c: usize = 0;
        while c < n
            invariant
                self.inv(),
                n == self@.problem.n(),
                c <= n,
                reachable@ == Seq::new(
                    self@.problem.candidates.len(),
                    |i: int| i < c && self@.undecided(i),
                ),
            decreases n - c,
        {
            if !self.selected.contains(c) && !self.banned.contains(c) {
                reachable.insert(c);
            }
            proof {
                assert(reachable@ =~= Seq::new(
                    self@.problem.candidates.len(),
                    |i: int| i < c + 1 && self@.undecided(i),
                ));
            }
            c = c + 1;
        }
        assert(reachable@ =~= self@.reachable());
        let already: Bitset = self.selected_ancestors();
        let mut addable: Bitset = dragged_by(self.problem, &reachable);
        let ghost all = addable@;
        let mut a: usize = 0;
        while a < addable.capacity()
            invariant
                all == self@.problem.union(self@.reachable()),
                already@ == self@.problem.union(self@.selected),
                a <= all.len(),
                addable@ == Seq::new(
                    self@.problem.ancestors.len(),
                    |i: int| all[i] && !(i < a && already@[i]),
                ),
            decreases all.len() - a,
        {
            if already.contains(a) {
                addable.remove(a);
            }
            proof {
                assert(addable@ =~= Seq::new(
                    self@.problem.ancestors.len(),
                    |i: int| all[i] && !(i < a + 1 && already@[i]),
                ));
            }
            a = a + 1;
        }
        proof {
            assert(addable@ =~= Seq::new(
                self@.problem.ancestors.len(),
                |a: int|
                    self@.problem.dragged(self@.reachable(), a) && !self@.problem.dragged(
                        self@.selected,
                        a,
                    ),
            ));
        }
        addable
    }

    /// A copy of this selector, with the same selection, bans and candidate order, over `problem`
    /// instead: for example to measure the selection against a second target.
    pub fn with_problem(&self, problem: &'a SelectionProblem) -> (r: CoinSelector<'a>)
        requires
            self.inv(),
            problem.inv(),
            problem@.sums_fit(),
            problem@.n() == self@.problem.n(),
        ensures
            r.inv(),
            r@ == (SelectionState { problem: problem@, ..self@ }),
    {
        let mut r: CoinSelector<'a> = CoinSelector::new(problem);
        let ghost n = problem@.n();
        r.set_candidate_order(self.candidate_order.clone());
        let mut c: usize = 0;
        while c < problem.len()
            invariant
                self.inv(),
                r.inv(),
                n == problem@.n(),
                n == self@.problem.n(),
                c <= n,
                r@.problem == problem@,
                r@.order == self@.order,
                r@.selected == Seq::new(n as nat, |i: int| i < c && self@.selected[i]),
                r@.banned == Seq::new(n as nat, |i: int| i < c && self@.banned[i]),
            decreases n - c,
        {
            if self.selected.contains(c) {
                r.select(c);
            }
            if self.banned.contains(c) {
                r.ban(c);
            }
            proof {
                assert(r@.selected =~= Seq::new(n as nat, |i: int| i < c + 1 && self@.selected[i]));
                assert(r@.banned =~= Seq::new(n as nat, |i: int| i < c + 1 && self@.banned[i]));
            }
            c = c + 1;
        }
        proof {
            assert(r@.selected =~= self@.selected);
            assert(r@.banned =~= self@.banned);
        }
        r
    }
}

/// The union of the ancestors that the candidates of `set` drag in.
fn dragged_by(problem: &SelectionProblem, set: &Bitset) -> (union: Bitset)
    requires
        problem.inv(),
        set@.len() == problem@.n(),
    ensures
        union@ == problem@.union(set@),
{
    let ghost p = problem@;
    let ghost m = p.ancestors.len();
    proof {
        problem.inv_shape();
    }
    let mut union: Bitset = Bitset::with_capacity(problem.ancestors().len());
    let mut c: usize = 0;
    while c < problem.len()
        invariant
            problem.inv(),
            p == problem@,
            p.wf(),
            p.m() <= u32::MAX,
            m == p.ancestors.len(),
            set@.len() == p.n(),
            c <= p.n(),
            union@.len() == m,
            forall|a: int|
                0 <= a < m ==> #[trigger] union@[a] == exists|i: int|
                    0 <= i < c && set@[i] && #[trigger] p.drags[i][a],
        decreases p.n() - c,
    {
        let ghost before = union@;
        if set.contains(c) {
            let list: &[u32] = problem.drags_in(c);
            let mut j: usize = 0;
            while j < list.len()
                invariant
                    union@.len() == m,
                    p.wf(),
                    c < p.n(),
                    m == p.ancestors.len(),
                    m <= u32::MAX,
                    crate::selection_problem::lists_ancestors(list@, p.drags[c as int]),
                    j <= list@.len(),
                    before.len() == m,
                    forall|a: int| 0 <= a < m && before[a] ==> #[trigger] union@[a],
                    forall|a: int|
                        0 <= a < m && #[trigger] union@[a] ==> before[a] || p.drags[c as int][a],
                    forall|i: int| 0 <= i < j ==> union@[#[trigger] list@[i] as int],
                decreases list@.len() - j,
            {
                assert(p.drags[c as int][list@[j as int] as int]);
                union.insert(list[j] as usize);
                j = j + 1;
            }
            proof {
                assert forall|a: int| 0 <= a < m && p.drags[c as int][a] implies union@[a] by {
                    let i = choose|i: int| 0 <= i < list@.len() && list@[i] == a as u32;
                    assert(union@[list@[i] as int]);
                }
            }
        }
        proof {
            assert forall|a: int| 0 <= a < m implies #[trigger] union@[a] == exists|i: int|
                0 <= i < c + 1 && set@[i] && #[trigger] p.drags[i][a] by {
                if before[a] {
                    let i = choose|i: int| 0 <= i < c && set@[i] && #[trigger] p.drags[i][a];
                    assert(p.drags[i][a]);
                    assert(union@[a]);
                } else if set@[c as int] && p.drags[c as int][a] {
                    assert(union@[a]);
                }
            }
        }
        c = c + 1;
    }
    proof {
        assert(union@ =~= p.union(set@));
    }
    union
}

/// The lower of two fees.
pub(crate) fn lower(a: u64, b: u64) -> (r: u64)
    ensures
        r == model::min(a as int, b as int),
{
    if a <= b {
        a
    } else {
        b
    }
}

/// The higher of two fees.
pub(crate) fn higher(a: u64, b: u64) -> (r: u64)
    ensures
        r == model::max(a as int, b as int),
{
    if a >= b {
        a
    } else {
        b
    }
}

/// What ancestors of total `weight` and `fee` lack to reach `rate` once `surplus` is credited too,
/// rounded down.
pub(crate) fn bump_floor(rate: FeeRate, weight: u64, fee: u64, surplus: u64) -> (bound: u64)
    ensures
        bound == (if weight * rate@ > (fee + surplus) * 4000 {
            feerate::saturated((weight * rate@ - (fee + surplus) * 4000) / 4000)
        } else {
            0
        }),
{
    let rate: u64 = rate.sat_per_kvb();
    proof {
        assert(0 <= weight * rate <= 0xffff_ffff_ffff_ffff * 0xffff_ffff_ffff_ffff)
            by (nonlinear_arith)
            requires
                0 <= weight <= 0xffff_ffff_ffff_ffff,
                0 <= rate <= 0xffff_ffff_ffff_ffff,
        ;
    }
    let owed: u128 = weight as u128 * rate as u128;
    let credit: u128 = (fee as u128 + surplus as u128) * 4000;
    if owed > credit {
        let bound: u128 = (owed - credit) / 4000;
        if bound > u64::MAX as u128 {
            u64::MAX
        } else {
            bound as u64
        }
    } else {
        0
    }
}

} // verus!
