//! The mathematical model of a selection problem and of the state of a selection.
use crate::bitset;
use crate::candidate::Candidate;
use crate::drain::{ChangePolicy, Drain, DrainWeights};
use crate::feerate;
use crate::feerate::FeeRate;
use crate::sums;
use crate::target::Target;
use crate::weights;
use vstd::prelude::*;

verus! {

/// The larger of two numbers.
pub open spec fn max(a: int, b: int) -> int {
    if a >= b {
        a
    } else {
        b
    }
}

/// The smaller of two numbers.
pub open spec fn min(a: int, b: int) -> int {
    if a <= b {
        a
    } else {
        b
    }
}

/// What a selection is made for and from: the target, the candidates, and the unconfirmed
/// ancestors that selecting a candidate drags in.
///
/// A selection is a sequence with one entry for each candidate that tells whether it is selected.
#[verifier::ext_equal]
pub struct ProblemView {
    /// What is funded.
    pub target: Target,
    /// The candidates, in construction order.
    pub candidates: Seq<Candidate>,
    /// Weight and fee of each unconfirmed ancestor.
    pub ancestors: Seq<(u64, u64)>,
    /// For each candidate and each ancestor, whether selecting the one drags in the other.
    pub drags: Seq<Seq<bool>>,
}

impl ProblemView {
    /// The number of candidates.
    pub open spec fn n(self) -> int {
        self.candidates.len() as int
    }

    /// The number of ancestors.
    pub open spec fn m(self) -> int {
        self.ancestors.len() as int
    }

    /// Whether the table of dragged-in ancestors has a row for each candidate and a column for each
    /// ancestor.
    pub open spec fn wf(self) -> bool {
        &&& self.drags.len() == self.candidates.len()
        &&& forall|c: int|
            0 <= c < self.drags.len() ==> #[trigger] self.drags[c].len() == self.ancestors.len()
    }

    /// How many candidates of `s` drag in ancestor `a`.
    pub open spec fn draggers(self, s: Seq<bool>, a: int) -> int {
        sums::over(s, |c: int| if self.drags[c][a] { 1int } else { 0 })
    }

    /// The selection of every candidate.
    pub open spec fn everything(self) -> Seq<bool> {
        Seq::new(self.candidates.len(), |c: int| true)
    }

    /// The selection of candidate `c` alone.
    pub open spec fn alone(self, c: int) -> Seq<bool> {
        Seq::new(self.candidates.len(), |i: int| i == c)
    }

    /// Whether more than one candidate drags in ancestor `a`.
    pub open spec fn is_shared(self, a: int) -> bool {
        self.draggers(self.everything(), a) >= 2
    }

    /// Whether some candidate of `s` drags in ancestor `a`.
    pub open spec fn dragged(self, s: Seq<bool>, a: int) -> bool {
        exists|c: int| 0 <= c < self.n() && s[c] && #[trigger] self.drags[c][a]
    }

    /// Whether candidate `c` alone drags in ancestor `a`.
    pub open spec fn is_private(self, c: int, a: int) -> bool {
        self.drags[c][a] && !self.is_shared(a)
    }

    /// Whether some candidate drags in an ancestor that no other one does.
    pub open spec fn has_private(self) -> bool {
        exists|c: int, a: int|
            0 <= c < self.n() && 0 <= a < self.m() && #[trigger] self.is_private(c, a)
    }

    /// Whether several candidates drag in some ancestor.
    pub open spec fn has_shared(self) -> bool {
        exists|a: int| 0 <= a < self.m() && #[trigger] self.is_shared(a)
    }

    /// For each ancestor, whether candidate `c` alone drags it in.
    pub open spec fn privates(self, c: int) -> Seq<bool> {
        Seq::new(self.ancestors.len(), |a: int| self.is_private(c, a))
    }

    /// The weight of the ancestors that candidate `c` alone drags in.
    pub open spec fn private_weight(self, c: int) -> int {
        sums::over(self.privates(c), |a: int| self.ancestors[a].0 as int)
    }

    /// The fee of the ancestors that candidate `c` alone drags in.
    pub open spec fn private_fee(self, c: int) -> int {
        sums::over(self.privates(c), |a: int| self.ancestors[a].1 as int)
    }

    /// The value of the candidates of `s`.
    pub open spec fn value_of(self, s: Seq<bool>) -> int {
        sums::over(s, |c: int| self.candidates[c].value as int)
    }

    /// The weight of the candidates of `s`.
    pub open spec fn weight_of(self, s: Seq<bool>) -> int {
        sums::over(s, |c: int| self.candidates[c].weight as int)
    }

    /// The number of segwit inputs among the candidates of `s`.
    pub open spec fn segwit_of(self, s: Seq<bool>) -> int {
        sums::over(s, |c: int| self.candidates[c].segwit_count as int)
    }

    /// The number of legacy inputs among the candidates of `s`.
    pub open spec fn legacy_of(self, s: Seq<bool>) -> int {
        sums::over(s, |c: int| self.candidates[c].legacy_count as int)
    }

    /// The weight of the inputs of a transaction that spends `s`, with the varint that counts them
    /// and, where there is a segwit input, the witness header and one unit for each legacy input.
    pub open spec fn input_weight(self, s: Seq<bool>) -> int {
        Self::framed(self.weight_of(s), self.segwit_of(s), self.legacy_of(s))
    }

    /// The weight of inputs that weigh `weight` by themselves once they are framed.
    pub open spec fn framed(weight: int, segwit: int, legacy: int) -> int {
        weights::varint_bytes(segwit + legacy) * 4 + weight + (if segwit > 0 {
            2 + legacy
        } else {
            0
        })
    }

    /// The weight of the transaction that spends `s` with a drain.
    pub open spec fn tx_weight(self, s: Seq<bool>, drain: DrainWeights) -> int {
        weights::TX_FIXED_FIELD_WEIGHT + self.input_weight(s)
            + self.target.outputs.weight_with_drain(drain)
    }

    /// For each ancestor, whether some candidate of `s` drags it in.
    pub open spec fn union(self, s: Seq<bool>) -> Seq<bool> {
        Seq::new(self.ancestors.len(), |a: int| self.dragged(s, a))
    }

    /// The weight of the ancestors that `s` drags in, each counted once.
    pub open spec fn ancestor_weight(self, s: Seq<bool>) -> int {
        sums::over(self.union(s), |a: int| self.ancestors[a].0 as int)
    }

    /// The fee of the ancestors that `s` drags in, each counted once.
    pub open spec fn ancestor_fee(self, s: Seq<bool>) -> int {
        sums::over(self.union(s), |a: int| self.ancestors[a].1 as int)
    }

    /// What `s` pays on top of its own feerate so that the ancestors it drags in reach the target
    /// rate. Weight and fee are netted across them, and what they overpay funds nothing else.
    pub open spec fn bump(self, s: Seq<bool>) -> int {
        Self::shortfall(self.target.fee.rate, self.ancestor_weight(s), self.ancestor_fee(s))
    }

    /// What transactions of total `weight` and `fee` lack to reach `rate`.
    pub open spec fn shortfall(rate: FeeRate, weight: int, fee: int) -> int {
        max(feerate::saturated(rate.fee_wu(weight)) - fee, 0)
    }

    /// What transactions of total `weight` and `fee` pay above `rate`, rounded up.
    pub open spec fn surplus(rate: FeeRate, weight: int, fee: int) -> int {
        max(feerate::ceil(fee * 4000 - weight * rate@, 4000), 0)
    }

    /// What ancestor `a` pays above the target rate, rounded up.
    pub open spec fn ancestor_surplus(self, a: int) -> int {
        Self::surplus(
            self.target.fee.rate,
            self.ancestors[a].0 as int,
            self.ancestors[a].1 as int,
        )
    }

    /// What the ancestors that candidate `c` alone drags in pay together above the target rate,
    /// rounded up.
    pub open spec fn private_surplus(self, c: int) -> int {
        Self::surplus(self.target.fee.rate, self.private_weight(c), self.private_fee(c))
    }

    /// What the ancestors that the candidates of `r` could still bring pay above the target rate:
    /// those that one candidate alone drags in are netted together, the others that `s` does not
    /// drag in yet count one by one.
    pub open spec fn reachable_surplus(self, s: Seq<bool>, r: Seq<bool>) -> int {
        sums::over(r, |c: int| self.private_surplus(c)) + sums::over(
            self.addable_shared(s, r),
            |a: int| self.ancestor_surplus(a),
        )
    }

    /// For each ancestor, whether several candidates drag it in, among them one of `r` but none of
    /// `s`.
    pub open spec fn addable_shared(self, s: Seq<bool>, r: Seq<bool>) -> Seq<bool> {
        Seq::new(
            self.ancestors.len(),
            |a: int| self.is_shared(a) && self.dragged(r, a) && !self.dragged(s, a),
        )
    }

    /// The least bump that a selection which adds candidates of `r` to `s` can owe: what `s` owes
    /// less every surplus that could still arrive.
    pub open spec fn bump_lower_bound(self, s: Seq<bool>, r: Seq<bool>) -> int {
        let credit = self.ancestor_fee(s) + self.reachable_surplus(s, r);
        let owed = self.ancestor_weight(s) * self.target.fee.rate@;
        if owed > credit * 4000 {
            feerate::saturated((owed - credit * 4000) / 4000) as int
        } else {
            0
        }
    }

    /// The fee that the target rate asks of `s` with a drain, its ancestors' bump included.
    pub open spec fn rate_fee(self, s: Seq<bool>, drain: DrainWeights) -> int {
        self.target.fee.rate.fee(self.tx_weight(s, drain)) + self.bump(s)
    }

    /// As `rate_fee`, with the rate applied to weight units.
    pub open spec fn rate_fee_wu(self, s: Seq<bool>, drain: DrainWeights) -> int {
        self.target.fee.rate.fee_wu(self.tx_weight(s, drain)) + self.bump(s)
    }

    /// The fee that all constraints of the target together ask of `s` with a drain.
    pub open spec fn fee_owed(self, s: Seq<bool>, drain: DrainWeights) -> int {
        max(
            max(self.rate_fee(s, drain), self.target.fee.absolute as int),
            self.target.fee.replacement_fee(self.tx_weight(s, drain)),
        )
    }

    /// What `s` pays in fees when the drain takes `drain_value`.
    pub open spec fn fee_paid(self, s: Seq<bool>, drain_value: int) -> int {
        self.value_of(s) - self.target.outputs.value_sum - drain_value
    }

    /// By how much `s` with a drain overshoots what the target asks.
    pub open spec fn excess(self, s: Seq<bool>, drain: Drain) -> int {
        self.fee_paid(s, drain.value as int) - self.fee_owed(s, drain.weights)
    }

    /// Whether `s` covers the target with a drain.
    pub open spec fn funded(self, s: Seq<bool>, drain: Drain) -> bool {
        self.excess(s, drain) >= 0
    }

    /// Whether the transaction that spends `s` with a drain is no heavier than the target allows.
    pub open spec fn within_max_weight(self, s: Seq<bool>, drain: DrainWeights) -> bool {
        match self.target.max_weight {
            Some(max_weight) => self.tx_weight(s, drain) <= max_weight,
            None => true,
        }
    }

    /// The candidates of `r` that are worth more than their weight costs at the target rate.
    pub open spec fn worth(self, r: Seq<bool>) -> Seq<bool> {
        Seq::new(
            r.len(),
            |c: int| r[c] && self.candidates[c].effective_at(self.target.fee.rate),
        )
    }

    /// The candidates of `r` that weigh nothing and carry value.
    pub open spec fn weightless(self, r: Seq<bool>) -> Seq<bool> {
        Seq::new(
            r.len(),
            |c: int| r[c] && self.candidates[c].weight == 0 && self.candidates[c].value > 0,
        )
    }

    /// The weight of all ancestors.
    pub open spec fn all_ancestor_weight(self) -> int {
        sums::sum(self.m(), |a: int| self.ancestors[a].0 as int)
    }

    /// The fee of all ancestors.
    pub open spec fn all_ancestor_fee(self) -> int {
        sums::sum(self.m(), |a: int| self.ancestors[a].1 as int)
    }

    /// No selection makes heavier inputs than this.
    pub open spec fn heaviest_inputs(self) -> int {
        36 + self.weight_of(self.everything()) + 2 + self.legacy_of(self.everything())
    }

    /// No selection makes a heavier transaction with this drain.
    pub open spec fn heaviest(self, drain: DrainWeights) -> int {
        weights::TX_FIXED_FIELD_WEIGHT + self.heaviest_inputs()
            + self.target.outputs.weight_with_drain(drain)
    }

    /// No selection owes a higher fee with this drain.
    pub open spec fn highest_fee(self, drain: DrainWeights) -> int {
        let fee = self.target.fee;
        max(
            max(
                fee.rate.fee(self.heaviest(drain)) + fee.rate.fee_wu(self.all_ancestor_weight()),
                fee.absolute as int,
            ),
            fee.replacement_fee(self.heaviest(drain)),
        )
    }

    /// Whether the sums over any selection fit the integers that hold them.
    pub open spec fn sums_fit(self) -> bool {
        &&& self.value_of(self.everything()) <= u64::MAX
        &&& self.segwit_of(self.everything()) + self.legacy_of(self.everything()) <= usize::MAX
        &&& self.heaviest_inputs() <= u64::MAX
        &&& self.all_ancestor_weight() <= u64::MAX
        &&& self.all_ancestor_fee() <= u64::MAX
        &&& self.n() <= u32::MAX || self.m() == 0
    }

    /// Whether the weight of any selection with this drain can be represented.
    pub open spec fn weights_fit(self, drain: DrainWeights) -> bool {
        &&& self.target.outputs.n_outputs + drain.n_outputs <= usize::MAX
        &&& self.heaviest(drain) <= u64::MAX
    }

    /// Whether every amount that belongs to a selection with this drain fits a signed 64-bit
    /// integer.
    pub open spec fn fits(self, drain: Drain) -> bool {
        &&& self.weights_fit(drain.weights)
        &&& self.value_of(self.everything()) <= i64::MAX
        &&& self.target.outputs.value_sum + drain.value + self.highest_fee(drain.weights)
            <= i64::MAX
    }
}

/// Where a selection stands: what is selected, what is banned from being selected, and the order in
/// which candidates are taken.
#[verifier::ext_equal]
pub struct SelectionState {
    /// The problem the selection is for.
    pub problem: ProblemView,
    /// For each candidate, whether it is selected.
    pub selected: Seq<bool>,
    /// For each candidate, whether it is banned.
    pub banned: Seq<bool>,
    /// The candidates in the order in which they are taken.
    pub order: Seq<usize>,
}

/// Whether `order` names each of the `n` candidates once.
pub open spec fn is_order(order: Seq<usize>, n: int) -> bool {
    &&& order.len() == n
    &&& forall|k: int| 0 <= k < n ==> #[trigger] order[k] < n
    &&& forall|j: int, k: int| 0 <= j < k < n ==> #[trigger] order[j] != #[trigger] order[k]
}

/// Where candidate `c` stands in an order that names each candidate once.
pub proof fn position_in_order(order: Seq<usize>, n: int, c: int) -> (k: int)
    requires
        is_order(order, n),
        0 <= c < n,
        n <= usize::MAX,
    ensures
        0 <= k < n,
        order[k] == c,
{
    let ints = Seq::new(order.len(), |k: int| order[k] as int);
    assert(ints.no_duplicates());
    vstd::seq_lib::seq_to_set_is_finite(ints);
    ints.unique_seq_to_set();
    let all = vstd::set_lib::set_int_range(0, n);
    vstd::set_lib::lemma_int_range(0, n);
    assert(ints.to_set().subset_of(all)) by {
        assert forall|x: int| ints.to_set().contains(x) implies all.contains(x) by {
            let k = choose|k: int| 0 <= k < ints.len() && ints[k] == x;
            assert(order[k] < n);
        }
    }
    vstd::set_lib::lemma_subset_equality(ints.to_set(), all);
    assert(ints.to_set().contains(c));
    choose|k: int| 0 <= k < ints.len() && ints[k] == c
}

impl SelectionState {
    /// Whether the parts of the state belong together and its sums fit the integers that hold them.
    pub open spec fn wf(self) -> bool {
        &&& self.problem.wf()
        &&& self.problem.sums_fit()
        &&& self.problem.n() <= usize::MAX
        &&& self.selected.len() == self.problem.n()
        &&& self.banned.len() == self.problem.n()
        &&& is_order(self.order, self.problem.n())
    }

    /// Whether candidate `c` is neither selected nor banned.
    pub open spec fn undecided(self, c: int) -> bool {
        !self.selected[c] && !self.banned[c]
    }

    /// For each candidate, whether it is neither selected nor banned.
    pub open spec fn reachable(self) -> Seq<bool> {
        Seq::new(self.selected.len(), |c: int| self.undecided(c))
    }

    /// The undecided candidates in the order in which they are taken.
    pub open spec fn unselected(self) -> Seq<usize> {
        self.order.filter(|c: usize| self.undecided(c as int))
    }

    /// The state after candidate `c` is selected.
    pub open spec fn select(self, c: int) -> SelectionState {
        SelectionState { selected: self.selected.update(c, true), ..self }
    }

    /// The state after candidate `c` is deselected.
    pub open spec fn deselect(self, c: int) -> SelectionState {
        SelectionState { selected: self.selected.update(c, false), ..self }
    }

    /// The state after candidate `c` is banned.
    pub open spec fn ban(self, c: int) -> SelectionState {
        SelectionState { banned: self.banned.update(c, true), ..self }
    }

    /// The state after candidate `c` is no longer banned.
    pub open spec fn unban(self, c: int) -> SelectionState {
        SelectionState { banned: self.banned.update(c, false), ..self }
    }

    /// The fee that this selection and every one that extends it must pay at least: its weight so
    /// far against each constraint, with the lower bound on the bump of the ancestors.
    pub open spec fn fee_floor(self) -> int {
        let fee = self.problem.target.fee;
        let weight = self.problem.tx_weight(self.selected, DrainWeights::spec_none());
        max(
            max(
                min(fee.rate.fee_wu(weight), fee.rate.fee(weight)) + self.problem.bump_lower_bound(
                    self.selected,
                    self.reachable(),
                ),
                fee.absolute as int,
            ),
            min(fee.replacement_fee_wu(weight), fee.replacement_fee(weight)),
        )
    }

    /// Whether some undecided candidate weighs nothing but carries value.
    pub open spec fn weightless_value_left(self) -> bool {
        exists|c: int|
            0 <= c < self.problem.n() && #[trigger] self.undecided(c)
                && self.problem.candidates[c].weight == 0 && self.problem.candidates[c].value > 0
    }

    /// Whether every undecided candidate is worth more than its weight costs at the target rate.
    pub open spec fn all_worth_selecting(self) -> bool {
        forall|c: int|
            0 <= c < self.problem.n() && #[trigger] self.undecided(c)
                ==> self.problem.candidates[c].effective_at(self.problem.target.fee.rate)
    }

    /// The state after every undecided candidate that is worth more than its weight costs is
    /// selected.
    pub open spec fn with_all_effective(self) -> SelectionState {
        SelectionState {
            selected: Seq::new(
                self.selected.len(),
                |c: int|
                    self.selected[c] || (self.undecided(c)
                        && self.problem.candidates[c].effective_at(self.problem.target.fee.rate)),
            ),
            ..self
        }
    }

    /// Whether this selection, or this selection with every effective candidate added, covers the
    /// target.
    pub open spec fn fundable(self) -> bool {
        ||| self.problem.funded(self.selected, Drain::spec_none())
        ||| self.problem.funded(self.with_all_effective().selected, Drain::spec_none())
    }

    /// What this selection could overshoot the target's feerate by, at most, once it is extended:
    /// the value less the weight-unit fee of the selection and of every undecided candidate worth
    /// selecting, with the lower bound on the bump.
    pub open spec fn best_reachable_rate_excess(self) -> int {
        let p = self.problem;
        let rate = p.target.fee.rate;
        let worth = p.worth(self.reachable());
        p.fee_paid(self.selected, 0) - rate.fee_wu(
            p.tx_weight(self.selected, DrainWeights::spec_none()),
        ) - p.bump_lower_bound(self.selected, self.reachable()) + p.value_of(worth) - rate.fee_wu(
            p.weight_of(worth),
        )
    }

    /// The change output that this selection should have according to `policy`.
    pub open spec fn drain(self, policy: ChangePolicy) -> Drain {
        let excess = self.problem.excess(
            self.selected,
            Drain { weights: policy.drain_weights, value: 0 },
        );
        if excess > policy.min_value {
            Drain { weights: policy.drain_weights, value: excess as u64 }
        } else {
            Drain::spec_none()
        }
    }

    /// Whether `t` adds to this selection only candidates that are not banned here.
    pub open spec fn extended_by(self, t: Seq<bool>) -> bool {
        &&& bitset::subset(self.selected, t)
        &&& forall|c: int| 0 <= c < t.len() && #[trigger] t[c] && !self.selected[c] ==> !self.banned[c]
    }
}

} // verus!
