//! What holds of every selection.
use crate::bitset;
use crate::bnb;
use crate::drain::{ChangePolicy, Drain, DrainWeights};
use crate::model;
use crate::model::{ProblemView, SelectionState};
use crate::sums;
use vstd::prelude::*;

verus! {

impl SelectionState {
    /// Deselecting a candidate that was just selected leads back to where the selection stood, and
    /// so does selecting one that was just deselected.
    pub proof fn deselect_undoes_select(self, c: int)
        requires
            self.wf(),
            0 <= c < self.problem.n(),
        ensures
            !self.selected[c] ==> self.select(c).deselect(c) == self,
            self.selected[c] ==> self.deselect(c).select(c) == self,
    {
        assert(self.selected.update(c, true).update(c, self.selected[c]) =~= self.selected);
        assert(self.selected.update(c, false).update(c, self.selected[c]) =~= self.selected);
    }

    /// Lifting a ban that was just imposed leads back to where the selection stood, and so does
    /// banning a candidate whose ban was just lifted.
    pub proof fn unban_undoes_ban(self, c: int)
        requires
            self.wf(),
            0 <= c < self.problem.n(),
        ensures
            !self.banned[c] ==> self.ban(c).unban(c) == self,
            self.banned[c] ==> self.unban(c).ban(c) == self,
    {
        assert(self.banned.update(c, true).update(c, self.banned[c]) =~= self.banned);
        assert(self.banned.update(c, false).update(c, self.banned[c]) =~= self.banned);
    }

    /// The order in which candidates are selected and banned makes no difference.
    pub proof fn updates_commute(self, c: int, d: int)
        requires
            self.wf(),
            0 <= c < self.problem.n(),
            0 <= d < self.problem.n(),
        ensures
            self.select(c).select(d) == self.select(d).select(c),
            self.ban(c).ban(d) == self.ban(d).ban(c),
            self.select(c).ban(d) == self.ban(d).select(c),
            c != d ==> self.select(c).deselect(d) == self.deselect(d).select(c),
    {
        assert(self.selected.update(c, true).update(d, true) =~= self.selected.update(
            d,
            true,
        ).update(c, true));
        assert(self.banned.update(c, true).update(d, true) =~= self.banned.update(d, true).update(
            c,
            true,
        ));
        if c != d {
            assert(self.selected.update(c, true).update(d, false) =~= self.selected.update(
                d,
                false,
            ).update(c, true));
        }
    }

    /// Whether the target is met does not depend on the change policy: a selection covers the
    /// target with the drain that a policy decides on exactly if it does so without one. A drain
    /// takes the whole excess, so that the fee is then exactly what is owed.
    pub proof fn change_keeps_the_target_met(self, policy: ChangePolicy)
        requires
            self.wf(),
            self.problem.fits(Drain { weights: policy.drain_weights, value: 0 }),
        ensures
            self.problem.funded(self.selected, self.drain(policy)) <==> self.problem.funded(
                self.selected,
                Drain::spec_none(),
            ),
            self.drain(policy) != Drain::spec_none() ==> self.problem.excess(
                self.selected,
                self.drain(policy),
            ) == 0,
    {
        let p = self.problem;
        let s = self.selected;
        p.drain_owes_more(s, policy.drain_weights);
        p.selection_bounded(s);
        p.fees_bounded(s, policy.drain_weights);
    }

    /// No selection that extends this one with candidates that are not banned owes less than its
    /// fee floor, whatever the drain.
    pub proof fn fee_floor_holds(self, t: Seq<bool>, drain: DrainWeights)
        requires
            self.wf(),
            self.problem.target.fee.rate.fee_wu(self.problem.all_ancestor_weight()) <= u64::MAX,
            self.extended_by(t),
        ensures
            self.fee_floor() <= self.problem.fee_owed(t, drain),
    {
        let p = self.problem;
        let fee = p.target.fee;
        let none = DrainWeights::spec_none();
        p.weight_monotone(self.selected, t, none);
        p.drain_owes_more(t, drain);
        let (w, v) = (p.tx_weight(self.selected, none), p.tx_weight(t, none));
        fee.rate.fee_monotone(w, v);
        if let Some(replace) = fee.replace {
            replace.incremental_relay_feerate.fee_monotone(w, v);
        }
        p.bump_lower_bound_holds(self.selected, self.reachable(), t);
    }

    /// Selecting a candidate whose ancestors the selection already drags in does not change the
    /// bump: each ancestor is charged once.
    pub proof fn ancestors_are_charged_once(self, c: int)
        requires
            self.wf(),
            0 <= c < self.problem.n(),
            forall|a: int|
                0 <= a < self.problem.m() && #[trigger] self.problem.drags[c][a]
                    ==> self.problem.dragged(self.selected, a),
        ensures
            self.problem.union(self.select(c).selected) == self.problem.union(self.selected),
            self.problem.bump(self.select(c).selected) == self.problem.bump(self.selected),
    {
        let p = self.problem;
        let (s, t) = (self.selected, self.select(c).selected);
        assert forall|a: int| 0 <= a < p.m() implies p.dragged(s, a) == p.dragged(t, a) by {
            if p.dragged(s, a) {
                let d = choose|d: int| 0 <= d < p.n() && s[d] && #[trigger] p.drags[d][a];
                assert(t[d] && p.drags[d][a]);
            }
            if p.dragged(t, a) {
                let d = choose|d: int| 0 <= d < p.n() && t[d] && #[trigger] p.drags[d][a];
                if d != c {
                    assert(s[d] && p.drags[d][a]);
                }
            }
        }
        assert(p.union(t) =~= p.union(s));
    }

    /// A selection that adds anything to this one takes on at least the input weight of the
    /// lightest undecided candidate.
    pub proof fn adding_takes_weight(self, t: Seq<bool>, lightest: int)
        requires
            self.wf(),
            self.extended_by(t),
            t != self.selected,
            forall|c: int|
                0 <= c < self.problem.n() && #[trigger] self.undecided(c)
                    ==> self.problem.candidates[c].weight >= lightest,
        ensures
            self.problem.input_weight(t) >= self.problem.input_weight(self.selected) + lightest,
    {
        let p = self.problem;
        let s = self.selected;
        if forall|c: int| 0 <= c < t.len() ==> t[c] == s[c] {
            assert(t =~= s);
        }
        let c = choose|c: int| 0 <= c < t.len() && t[c] != s[c];
        assert(t[c] && self.undecided(c));
        let more = s.update(c, true);
        p.sums_insert(s, c);
        assert(bitset::subset(s, more));
        p.sums_monotone(s, more);
        p.weight_monotone(more, t, DrainWeights::spec_none());
    }

    /// The ancestors that undecided candidates drag in and the selection does not are exactly those
    /// that some selection extending this one adds.
    pub proof fn addable_ancestors_can_be_added(self, a: int)
        requires
            self.wf(),
            0 <= a < self.problem.m(),
        ensures
            self.problem.dragged(self.reachable(), a) && !self.problem.dragged(self.selected, a)
                <==> exists|t: Seq<bool>| #[trigger]
                self.extended_by(t) && self.problem.dragged(t, a) && !self.problem.dragged(
                    self.selected,
                    a,
                ),
    {
        let p = self.problem;
        let s = self.selected;
        if p.dragged(self.reachable(), a) && !p.dragged(s, a) {
            let c = choose|c: int|
                0 <= c < p.n() && self.reachable()[c] && #[trigger] p.drags[c][a];
            let t = s.update(c, true);
            assert(t[c] && p.drags[c][a]);
            assert(self.extended_by(t));
        }
        if exists|t: Seq<bool>| #[trigger]
            self.extended_by(t) && p.dragged(t, a) && !p.dragged(s, a) {
            let t = choose|t: Seq<bool>| #[trigger]
                self.extended_by(t) && p.dragged(t, a) && !p.dragged(s, a);
            let c = choose|c: int| 0 <= c < p.n() && t[c] && #[trigger] p.drags[c][a];
            assert(!s[c]);
            assert(self.reachable()[c] && p.drags[c][a]);
        }
    }

    /// Where a selection is reported to be fundable, some selection that extends it does cover the
    /// target.
    pub proof fn fundable_can_be_funded(self)
        requires
            self.wf(),
            self.fundable(),
        ensures
            exists|t: Seq<bool>| #[trigger]
                self.extended_by(t) && self.problem.funded(t, Drain::spec_none()),
    {
        assert(self.extended_by(self.selected));
        assert(self.extended_by(self.with_all_effective().selected));
    }

    /// No selection that extends this one exceeds the target's feerate, applied to weight units, by
    /// more than what is reported as reachable, up to a satoshi of rounding; and by no more at all
    /// where the fee on the weight so far needs no rounding.
    pub proof fn reachable_excess_holds(self, t: Seq<bool>)
        requires
            self.wf(),
            self.problem.target.fee.rate.fee_wu(self.problem.all_ancestor_weight()) <= u64::MAX,
            self.extended_by(t),
        ensures
            ({
                let p = self.problem;
                let none = DrainWeights::spec_none();
                let excess = p.fee_paid(t, 0) - p.rate_fee_wu(t, none);
                &&& excess <= self.best_reachable_rate_excess() + 1
                &&& (p.tx_weight(self.selected, none) * p.target.fee.rate@) % 4000 == 0 ==> excess
                    <= self.best_reachable_rate_excess()
            }),
    {
        let p = self.problem;
        let s = self.selected;
        let none = DrainWeights::spec_none();
        let rate = p.target.fee.rate@ as int;
        let worth = p.worth(self.reachable());
        let added = Seq::new(t.len(), |c: int| t[c] && !s[c]);
        let value_at = |c: int| p.candidates[c].value as int;
        let weight_at = |c: int| p.candidates[c].weight as int;
        sums::lemma_over_split(t, s, added, value_at);
        sums::lemma_over_split(t, s, added, weight_at);
        let h = |c: int| 4000 * value_at(c) + (-rate) * weight_at(c);
        sums::lemma_over_linear(added, value_at, weight_at, h, 4000, -rate);
        sums::lemma_over_linear(worth, value_at, weight_at, h, 4000, -rate);
        let (f, g) = (
            |c: int| if added[c] { h(c) } else { 0 },
            |c: int| if worth[c] { h(c) } else { 0 },
        );
        assert forall|c: int| 0 <= c < t.len() implies #[trigger] f(c) <= g(c) by {
            let w = weight_at(c);
            assert((-rate) * w == -(w * rate)) by (nonlinear_arith);
            if added[c] {
                assert(self.reachable()[c]);
            }
        }
        sums::lemma_sum_le(t.len() as int, f, g);
        p.bump_lower_bound_holds(s, self.reachable(), t);
        p.sums_monotone(s, t);
        let (v, w) = (p.value_of(added), p.weight_of(added));
        let (x, y) = (p.value_of(worth), p.weight_of(worth));
        let (weight, heavier) = (p.tx_weight(s, none), p.tx_weight(t, none));
        p.target.fee.rate.fee_monotone(weight + w, heavier);
        p.target.fee.rate.fee_wu_of_sum(weight, y);
        assert((weight + w) * rate - (weight + y) * rate == (-rate) * y - (-rate) * w)
            by (nonlinear_arith);
        assert((weight + y) * rate == weight * rate + y * rate) by (nonlinear_arith);
    }

    /// What can be reached by extending a selection that extends this one can be reached from here.
    pub proof fn extensions_extend(self, t: SelectionState, u: Seq<bool>)
        requires
            self.wf(),
            t.wf(),
            t.problem == self.problem,
            self.extended_by(t.selected),
            bitset::subset(self.banned, t.banned),
            t.extended_by(u),
        ensures
            self.extended_by(u),
    {
        assert forall|c: int| 0 <= c < u.len() && #[trigger] u[c] && !self.selected[c] implies !self.banned[c] by {
            if !t.selected[c] {
                assert(!t.banned[c]);
            }
        }
    }
}

impl ProblemView {
    /// A drain never makes a selection lighter, and never lowers what it owes.
    pub proof fn drain_owes_more(self, s: Seq<bool>, drain: DrainWeights)
        ensures
            self.tx_weight(s, DrainWeights::spec_none()) <= self.tx_weight(s, drain),
            self.fee_owed(s, DrainWeights::spec_none()) <= self.fee_owed(s, drain),
            self.within_max_weight(s, drain) ==> self.within_max_weight(
                s,
                DrainWeights::spec_none(),
            ),
    {
        let fee = self.target.fee;
        let (w, v) = (self.tx_weight(s, DrainWeights::spec_none()), self.tx_weight(s, drain));
        fee.rate.fee_monotone(w, v);
        if let Some(replace) = fee.replace {
            replace.incremental_relay_feerate.fee_monotone(w, v);
        }
    }

    /// The excess is what is left once the tightest of the fee constraints is met.
    pub proof fn excess_is_the_least_excess(self, s: Seq<bool>, drain: Drain)
        ensures
            self.excess(s, drain) == model::min(
                model::min(
                    self.fee_paid(s, drain.value as int) - self.rate_fee(s, drain.weights),
                    self.fee_paid(s, drain.value as int) - self.target.fee.absolute,
                ),
                self.fee_paid(s, drain.value as int) - self.target.fee.replacement_fee(
                    self.tx_weight(s, drain.weights),
                ),
            ),
    {
    }

    /// Selecting more never un-meets the target where what is added pays for itself: for the weight
    /// it adds to the transaction, at the target rate and at the rate of a replacement, and for
    /// what the bump of the ancestors grows by.
    pub proof fn stays_funded(self, s: Seq<bool>, t: Seq<bool>, drain: Drain)
        requires
            bitset::subset(s, t),
            self.funded(s, drain),
            ({
                let gained = self.value_of(t) - self.value_of(s);
                let more = self.tx_weight(t, drain.weights) - self.tx_weight(s, drain.weights);
                &&& gained >= self.target.fee.rate.fee(more) + self.bump(t) - self.bump(s)
                &&& self.target.fee.replace matches Some(replace) ==> gained
                    >= replace.incremental_relay_feerate.fee(more)
            }),
        ensures
            self.funded(t, drain),
    {
        let weight = self.tx_weight(s, drain.weights);
        let more = self.tx_weight(t, drain.weights) - weight;
        self.sums_monotone(s, t);
        self.target.fee.rate.fee_of_sum(weight, more);
        if let Some(replace) = self.target.fee.replace {
            replace.incremental_relay_feerate.fee_of_sum(weight, more);
        }
    }

    /// Candidates that look alike can take each other's place: nothing that is summed over a
    /// selection changes.
    pub proof fn look_alikes_are_interchangeable(self, t: Seq<bool>, i: int, j: int)
        requires
            t.len() == self.n(),
            0 <= i < self.n(),
            0 <= j < self.n(),
            bnb::look_alike(self, i, j),
            t[i],
            !t[j],
        ensures
            self.value_of(bnb::swapped(t, i, j)) == self.value_of(t),
            self.weight_of(bnb::swapped(t, i, j)) == self.weight_of(t),
            self.segwit_of(bnb::swapped(t, i, j)) == self.segwit_of(t),
            self.legacy_of(bnb::swapped(t, i, j)) == self.legacy_of(t),
            self.union(bnb::swapped(t, i, j)) == self.union(t),
    {
        let less = t.update(i, false);
        let other = bnb::swapped(t, i, j);
        assert(t =~= less.update(i, true));
        self.sums_insert(less, i);
        self.sums_insert(less, j);
        assert forall|a: int| 0 <= a < self.m() implies self.dragged(t, a) == self.dragged(
            other,
            a,
        ) by {
            if self.dragged(t, a) {
                let d = choose|d: int| 0 <= d < self.n() && t[d] && #[trigger] self.drags[d][a];
                let e = if d == i {
                    j
                } else {
                    d
                };
                assert(other[e] && self.drags[e][a]);
            }
            if self.dragged(other, a) {
                let d = choose|d: int| 0 <= d < self.n() && other[d] && #[trigger] self.drags[d][a];
                let e = if d == j {
                    i
                } else {
                    d
                };
                assert(t[e] && self.drags[e][a]);
            }
        }
        assert(self.union(other) =~= self.union(t));
    }

    /// A bump is never negative: what ancestors overpay is not credited to the selection.
    pub proof fn bump_never_credits(self, s: Seq<bool>)
        ensures
            self.bump(s) >= 0,
    {
    }

    /// Where no ancestor that could still be dragged in overpays, the lower bound on the bump is
    /// the bump itself, up to a satoshi of rounding, and exactly where no rounding is needed.
    pub proof fn lower_bound_is_tight(self, s: Seq<bool>, r: Seq<bool>)
        requires
            self.wf(),
            s.len() == self.n(),
            r.len() == self.n(),
            self.target.fee.rate.fee_wu(self.all_ancestor_weight()) <= u64::MAX,
            self.reachable_surplus(s, r) == 0,
        ensures
            self.bump_lower_bound(s, r) <= self.bump(s) <= self.bump_lower_bound(s, r) + 1,
            (self.ancestor_weight(s) * self.target.fee.rate@) % 4000 == 0 ==> self.bump(s)
                == self.bump_lower_bound(s, r),
    {
        self.selection_bounded(s);
        self.target.fee.rate.fee_monotone(self.ancestor_weight(s), self.all_ancestor_weight());
    }

    /// A selection pays the bump only for the ancestors that it drags in: with none, it owes none.
    pub proof fn nothing_dragged_nothing_owed(self, s: Seq<bool>)
        requires
            forall|a: int| 0 <= a < self.m() ==> !#[trigger] self.dragged(s, a),
        ensures
            self.bump(s) == 0,
    {
        let u = self.union(s);
        sums::lemma_over_empty(u, |a: int| self.ancestors[a].0 as int);
        sums::lemma_over_empty(u, |a: int| self.ancestors[a].1 as int);
        self.target.fee.rate.fee_wu_at_most_fee(0);
    }
}

} // verus!
