//! What a selection weighs, pays, owes and drags in, stated over what one candidate more changes.
use crate::bitset;
use crate::drain::{ChangePolicy, Drain, DrainWeights};
use crate::fee_laws;
use crate::feerate::FeeRate;
use crate::metrics::lowest_fee;
use crate::model::{ProblemView, SelectionState};
use crate::selection_problem::SelectionProblem;
use crate::sums;
use crate::weights;
use vstd::prelude::*;

verus! {

impl ProblemView {
    /// A selected candidate adds to the inputs its own weight, what the bytes that count them grow
    /// by, and its part of the witness: the first segwit input brings the two bytes of the header
    /// and an empty witness for each legacy input, and from then on each legacy input brings one.
    pub proof fn inputs_grow(self, s: Seq<bool>, c: int)
        requires
            s.len() == self.n(),
            0 <= c < self.n(),
            !s[c],
        ensures
            ({
                let candidate = self.candidates[c];
                let count = self.segwit_of(s) + self.legacy_of(s);
                let more = count + candidate.segwit_count + candidate.legacy_count;
                self.input_weight(s.update(c, true)) - self.input_weight(s) == candidate.weight + 4
                    * (weights::varint_bytes(more) - weights::varint_bytes(count)) + (if self.segwit_of(
                    s,
                ) > 0 {
                    candidate.legacy_count as int
                } else if candidate.segwit_count > 0 {
                    2 + self.legacy_of(s) + candidate.legacy_count
                } else {
                    0
                })
            }),
    {
        self.sums_insert(s, c);
        self.sums_monotone(s, s);
    }

    /// Nothing selected is worth nothing and takes one byte to count. A transaction weighs its
    /// inputs, its outputs with their count, the change, and eight bytes.
    pub proof fn transaction_weighs_its_parts(self, s: Seq<bool>, drain: DrainWeights)
        ensures
            bitset::holds_nothing(s) ==> self.input_weight(s) == 4 && self.value_of(s) == 0,
            self.tx_weight(s, drain) == 4 * 8 + self.input_weight(s) + self.target.outputs.weight_sum
                + drain.output_weight + 4 * weights::varint_bytes(
                self.target.outputs.n_outputs + drain.n_outputs,
            ),
    {
        if bitset::holds_nothing(s) {
            self.sums_empty(s);
        }
    }

    /// What is owed is the least that meets every constraint: the feerate on the virtual bytes of
    /// the transaction and the bump on top, the absolute fee, and what a replacement asks.
    pub proof fn owed_is_least(self, s: Seq<bool>, drain: DrainWeights, vbytes: int, paid: int)
        requires
            fee_laws::fills(vbytes, self.tx_weight(s, drain)),
        ensures
            paid >= self.rate_fee(s, drain) <==> (paid - self.bump(s)) * 1000 >= vbytes
                * self.target.fee.rate@,
            paid >= self.rate_fee_wu(s, drain) <==> (paid - self.bump(s)) * 4000 >= self.tx_weight(
                s,
                drain,
            ) * self.target.fee.rate@,
            self.target.fee.replace is Some || paid >= 0 ==> (paid >= self.fee_owed(s, drain) <==> {
                let fee = self.target.fee;
                &&& (paid - self.bump(s)) * 1000 >= vbytes * fee.rate@
                &&& paid >= fee.absolute
                &&& fee.replace matches Some(replace) ==> (paid - replace.fee) * 1000 >= vbytes
                    * replace.incremental_relay_feerate@
            }),
    {
        let weight = self.tx_weight(s, drain);
        self.target.fee.rate.fee_is_least(weight, vbytes, paid - self.bump(s));
        if let Some(replace) = self.target.fee.replace {
            replace.replacing_pays_twice(weight, vbytes, paid);
        }
    }

    /// The excess is what the selected candidates are worth beyond the outputs, the change and what
    /// is owed, and a target is covered where it is not negative: so a selection can part with
    /// `more` and still cover the target exactly if that is no more than the excess.
    pub proof fn excess_can_be_spared(self, s: Seq<bool>, drain: Drain, more: int)
        requires
            0 <= more <= u64::MAX - drain.value,
        ensures
            self.excess(s, drain) == self.value_of(s) - self.target.outputs.value_sum - drain.value
                - self.fee_owed(s, drain.weights),
            self.fee_paid(s, more) == self.value_of(s) - self.target.outputs.value_sum - more,
            more <= self.excess(s, drain) <==> self.funded(
                s,
                Drain { weights: drain.weights, value: (drain.value + more) as u64 },
            ),
    {
    }

    /// A weight limit admits what is no heavier, and no limit admits everything.
    pub proof fn weight_limit_admits(self, s: Seq<bool>, drain: DrainWeights)
        ensures
            self.target.max_weight is None ==> self.within_max_weight(s, drain),
            self.target.max_weight matches Some(limit) ==> (self.within_max_weight(s, drain)
                <==> self.tx_weight(s, drain) <= limit),
    {
    }

    /// A candidate drags in its own ancestors besides those that are dragged in already, and each
    /// new one adds its weight and fee once.
    pub proof fn ancestors_grow(self, s: Seq<bool>, c: int)
        requires
            self.wf(),
            s.len() == self.n(),
            0 <= c < self.n(),
        ensures
            ({
                let t = s.update(c, true);
                let fresh = Seq::new(
                    self.ancestors.len(),
                    |a: int| self.drags[c][a] && !self.union(s)[a],
                );
                &&& forall|a: int|
                    0 <= a < self.m() ==> #[trigger] self.union(t)[a] == (self.union(s)[a]
                        || self.drags[c][a])
                &&& self.ancestor_weight(t) == self.ancestor_weight(s) + sums::over(
                    fresh,
                    |a: int| self.ancestors[a].0 as int,
                )
                &&& self.ancestor_fee(t) == self.ancestor_fee(s) + sums::over(
                    fresh,
                    |a: int| self.ancestors[a].1 as int,
                )
            }),
    {
        let t = s.update(c, true);
        let fresh = Seq::new(
            self.ancestors.len(),
            |a: int| self.drags[c][a] && !self.union(s)[a],
        );
        assert forall|a: int| 0 <= a < self.m() implies #[trigger] self.union(t)[a] == (
        self.union(s)[a] || self.drags[c][a]) by {
            if self.dragged(s, a) {
                let d = choose|d: int| 0 <= d < self.n() && s[d] && #[trigger] self.drags[d][a];
                assert(t[d] && self.drags[d][a]);
            }
            if self.drags[c][a] {
                assert(t[c] && self.drags[c][a]);
            }
            if self.dragged(t, a) {
                let d = choose|d: int| 0 <= d < self.n() && t[d] && #[trigger] self.drags[d][a];
                if d != c {
                    assert(s[d] && self.drags[d][a]);
                }
            }
        }
        sums::lemma_over_split(
            self.union(t),
            self.union(s),
            fresh,
            |a: int| self.ancestors[a].0 as int,
        );
        sums::lemma_over_split(
            self.union(t),
            self.union(s),
            fresh,
            |a: int| self.ancestors[a].1 as int,
        );
    }

    /// Nothing selected drags in nothing.
    pub proof fn nothing_drags_in_nothing(self, s: Seq<bool>)
        requires
            s.len() == self.n(),
            bitset::holds_nothing(s),
        ensures
            bitset::holds_nothing(self.union(s)),
            self.ancestor_weight(s) == 0,
            self.ancestor_fee(s) == 0,
            self.bump(s) == 0,
    {
        assert forall|a: int| 0 <= a < self.m() implies !#[trigger] self.union(s)[a] by {
            if self.dragged(s, a) {
                let d = choose|d: int| 0 <= d < self.n() && s[d] && #[trigger] self.drags[d][a];
                assert(s[d]);
            }
        }
        sums::lemma_over_empty(self.union(s), |a: int| self.ancestors[a].0 as int);
        sums::lemma_over_empty(self.union(s), |a: int| self.ancestors[a].1 as int);
        self.target.fee.rate.fee_wu_at_most_fee(0);
    }

    /// The bump is the least that brings what is dragged in to the target rate, together with the
    /// fees that were paid for it; nothing is owed where those suffice.
    pub proof fn bump_is_least(self, s: Seq<bool>, paid: int)
        requires
            self.target.fee.rate.fee_wu(self.ancestor_weight(s)) <= u64::MAX,
            self.ancestor_weight(s) >= 0,
            paid >= 0,
        ensures
            paid >= self.bump(s) <==> (self.ancestor_fee(s) + paid) * 4000 >= self.ancestor_weight(s)
                * self.target.fee.rate@,
    {
        Self::shortfall_is_least(
            self.target.fee.rate,
            self.ancestor_weight(s),
            self.ancestor_fee(s),
            paid,
        );
    }

    /// A shortfall is the least that brings a weight to a feerate, and a surplus is the least that
    /// covers all that was paid above it.
    pub proof fn shortfall_is_least(rate: FeeRate, weight: int, fee: int, paid: int)
        requires
            rate.fee_wu(weight) <= u64::MAX,
            weight >= 0,
            paid >= 0,
        ensures
            paid >= Self::shortfall(rate, weight, fee) <==> (fee + paid) * 4000 >= weight * rate@,
            paid >= Self::surplus(rate, weight, fee) <==> (fee - paid) * 4000 <= weight * rate@,
    {
        let vbytes = FeeRate::weight_fills_vbytes(weight);
        rate.fee_wu_at_most_fee(weight);
        rate.fee_is_least(weight, vbytes, fee + paid);
        fee_laws::saturated_keeps(rate.fee_wu(weight));
        fee_laws::ceil_is_least(fee * 4000 - weight * rate@, 4000, paid);
    }

    /// An ancestor is shared if two candidates drag it in, and a candidate's own if no other does.
    pub proof fn shared_by_two(self, a: int)
        requires
            self.wf(),
            0 <= a < self.m(),
        ensures
            self.is_shared(a) <==> exists|c: int, d: int|
                0 <= c < d < self.n() && #[trigger] self.drags[c][a] && #[trigger] self.drags[d][a],
            forall|c: int|
                0 <= c < self.n() ==> (#[trigger] self.is_private(c, a) <==> self.drags[c][a]
                    && forall|d: int|
                    0 <= d < self.n() && d != c ==> !#[trigger] self.drags[d][a]),
    {
        let f = |c: int| if self.drags[c][a] { 1int } else { 0 };
        let all = self.everything();
        assert forall|c: int, d: int|
            0 <= c < d < self.n() && #[trigger] self.drags[c][a]
                && #[trigger] self.drags[d][a] implies self.is_shared(a) by {
            let rest = all.update(c, false);
            let fewer = rest.update(d, false);
            sums::lemma_over_remove(all, f, c);
            sums::lemma_over_remove(rest, f, d);
            sums::lemma_over_le(fewer, fewer, f);
        }
        if self.is_shared(a) {
            self.dragged_is_counted(all, a);
            let c = choose|c: int| 0 <= c < self.n() && all[c] && #[trigger] self.drags[c][a];
            let rest = all.update(c, false);
            sums::lemma_over_remove(all, f, c);
            self.dragged_is_counted(rest, a);
            let d = choose|d: int| 0 <= d < self.n() && rest[d] && #[trigger] self.drags[d][a];
            assert(d != c);
            if c < d {
                assert(self.drags[c][a] && self.drags[d][a]);
            } else {
                assert(self.drags[d][a] && self.drags[c][a]);
            }
        }
    }

    /// What a candidate alone drags in is what nothing drags in without it.
    pub proof fn private_is_what_is_lost(self, c: int)
        requires
            self.wf(),
            0 <= c < self.n(),
        ensures
            ({
                let all = self.everything();
                let others = all.update(c, false);
                &&& self.private_weight(c) == self.ancestor_weight(all) - self.ancestor_weight(others)
                &&& self.private_fee(c) == self.ancestor_fee(all) - self.ancestor_fee(others)
            }),
    {
        let all = self.everything();
        let others = all.update(c, false);
        assert(others.update(c, true) =~= all);
        self.ancestors_grow(others, c);
        let fresh = Seq::new(
            self.ancestors.len(),
            |a: int| self.drags[c][a] && !self.union(others)[a],
        );
        assert forall|a: int| 0 <= a < self.m() implies #[trigger] fresh[a] == self.privates(c)[a] by {
            self.shared_by_two(a);
            if self.drags[c][a] && self.dragged(others, a) {
                let d = choose|d: int|
                    0 <= d < self.n() && others[d] && #[trigger] self.drags[d][a];
                assert(d != c && self.drags[d][a]);
            }
            if self.drags[c][a] && !self.dragged(others, a) {
                assert forall|d: int| 0 <= d < self.n() && d != c implies !#[trigger] self.drags[d][a] by {
                    if self.drags[d][a] {
                        assert(others[d]);
                    }
                }
                assert(self.is_private(c, a));
            }
        }
        assert(fresh =~= self.privates(c));
    }

    /// A problem has ancestors if some candidate drags one in, and shared ones if two drag in the
    /// same.
    pub proof fn has_what_is_dragged_in(self)
        requires
            self.wf(),
        ensures
            lowest_fee::has_ancestors(self) <==> exists|c: int, a: int|
                0 <= c < self.n() && 0 <= a < self.m() && #[trigger] self.drags[c][a],
            self.has_shared() <==> exists|a: int, c: int, d: int|
                0 <= a < self.m() && 0 <= c < d < self.n() && #[trigger] self.drags[c][a]
                    && #[trigger] self.drags[d][a],
            self.has_private() <==> exists|c: int, a: int|
                0 <= c < self.n() && 0 <= a < self.m() && #[trigger] self.drags[c][a] && forall|d: int|
                    0 <= d < self.n() && d != c ==> !#[trigger] self.drags[d][a],
    {
        assert forall|c: int, a: int|
            0 <= c < self.n() && 0 <= a < self.m() && #[trigger] self.drags[c][a] implies self.is_private(
            c,
            a,
        ) || self.is_shared(a) by {}
        assert forall|a: int| 0 <= a < self.m() implies (#[trigger] self.is_shared(a) <==> exists|
            c: int,
            d: int,
        |
            0 <= c < d < self.n() && #[trigger] self.drags[c][a] && #[trigger] self.drags[d][a]) by {
            self.shared_by_two(a);
        }
        assert forall|c: int, a: int|
            0 <= c < self.n() && 0 <= a < self.m() implies (#[trigger] self.is_private(c, a)
            <==> self.drags[c][a] && forall|d: int|
            0 <= d < self.n() && d != c ==> !#[trigger] self.drags[d][a]) by {
            self.shared_by_two(a);
        }
    }

    /// What could be overpaid grows with each candidate in reach: by what its own ancestors overpay
    /// together, and by what each shared one does that neither the selection nor others in reach
    /// drag in. Nothing in reach overpays nothing.
    pub proof fn reachable_surplus_grows(self, s: Seq<bool>, r: Seq<bool>, c: int)
        requires
            self.wf(),
            s.len() == self.n(),
            r.len() == self.n(),
            0 <= c < self.n(),
            !r[c],
        ensures
            ({
                let fresh = Seq::new(
                    self.ancestors.len(),
                    |a: int|
                        self.drags[c][a] && self.is_shared(a) && !self.union(s)[a] && !self.union(
                            r,
                        )[a],
                );
                &&& self.reachable_surplus(s, r.update(c, true)) == self.reachable_surplus(s, r)
                    + Self::surplus(
                    self.target.fee.rate,
                    self.private_weight(c),
                    self.private_fee(c),
                ) + sums::over(
                    fresh,
                    |a: int|
                        Self::surplus(
                            self.target.fee.rate,
                            self.ancestors[a].0 as int,
                            self.ancestors[a].1 as int,
                        ),
                )
                &&& bitset::holds_nothing(r) ==> self.reachable_surplus(s, r) == 0
            }),
    {
        let fresh = Seq::new(
            self.ancestors.len(),
            |a: int|
                self.drags[c][a] && self.is_shared(a) && !self.union(s)[a] && !self.union(r)[a],
        );
        let more = r.update(c, true);
        let f = |a: int| self.ancestor_surplus(a);
        self.ancestors_grow(r, c);
        sums::lemma_over_insert(r, |c: int| self.private_surplus(c), c);
        assert forall|a: int| 0 <= a < self.m() implies self.addable_shared(s, more)[a] == (
        self.addable_shared(s, r)[a] || #[trigger] fresh[a]) by {
            assert(self.union(more)[a] == (self.union(r)[a] || self.drags[c][a]));
        }
        sums::lemma_over_split(self.addable_shared(s, more), self.addable_shared(s, r), fresh, f);
        let g = |a: int|
            Self::surplus(
                self.target.fee.rate,
                self.ancestors[a].0 as int,
                self.ancestors[a].1 as int,
            );
        sums::lemma_over_ext(fresh, fresh, f, g);
        if bitset::holds_nothing(r) {
            self.nothing_drags_in_nothing(r);
            sums::lemma_over_empty(r, |c: int| self.private_surplus(c));
            assert forall|a: int| 0 <= a < self.m() implies !#[trigger] self.addable_shared(s, r)[a] by {
                assert(!self.union(r)[a]);
            }
            sums::lemma_over_empty(self.addable_shared(s, r), f);
        }
    }

    /// The lower bound on the bump is what the selection owes for its ancestors once all that could
    /// be overpaid is credited, rounded down, and never less than nothing.
    pub proof fn lower_bound_credits_the_surplus(self, s: Seq<bool>, r: Seq<bool>, bound: int)
        requires
            self.target.fee.rate.fee_wu(self.ancestor_weight(s)) <= u64::MAX,
            self.ancestor_weight(s) >= 0,
            self.ancestor_fee(s) >= 0,
            self.reachable_surplus(s, r) >= 0,
            bound > 0,
        ensures
            bound <= self.bump_lower_bound(s, r) <==> self.ancestor_weight(s) * self.target.fee.rate@
                >= 4000 * (self.ancestor_fee(s) + self.reachable_surplus(s, r) + bound),
            self.bump_lower_bound(s, r) >= 0,
    {
        let weight = self.ancestor_weight(s);
        let vbytes = FeeRate::weight_fills_vbytes(weight);
        let credit = self.ancestor_fee(s) + self.reachable_surplus(s, r);
        self.target.fee.rate.fee_is_least(weight, vbytes, u64::MAX as int);
        let left = weight * self.target.fee.rate@ - credit * 4000;
        if left > 0 {
            fee_laws::saturated_keeps(left / 4000);
        }
    }
}

impl SelectionState {
    /// Selecting, deselecting, banning and lifting a ban change the one candidate that they are
    /// about, and nothing else.
    pub proof fn updates_change_one(self, c: int, d: int)
        requires
            self.wf(),
            0 <= c < self.problem.n(),
            0 <= d < self.problem.n(),
        ensures
            self.select(c).selected[d] == (d == c || self.selected[d]),
            self.deselect(c).selected[d] == (d != c && self.selected[d]),
            self.ban(c).banned[d] == (d == c || self.banned[d]),
            self.unban(c).banned[d] == (d != c && self.banned[d]),
            self.select(c).banned == self.banned && self.deselect(c).banned == self.banned,
            self.ban(c).selected == self.selected && self.unban(c).selected == self.selected,
            self.select(c).order == self.order && self.deselect(c).order == self.order,
            self.ban(c).order == self.order && self.unban(c).order == self.order,
            self.select(c).problem == self.problem && self.deselect(c).problem == self.problem,
            self.ban(c).problem == self.problem && self.unban(c).problem == self.problem,
    {
    }

    /// What is left to select is what is neither selected nor banned, and comes in the order of the
    /// candidates.
    pub proof fn undecided_in_order(self, i: int, j: int) -> (at: (int, int))
        requires
            self.wf(),
            0 <= i < j < self.unselected().len(),
        ensures
            0 <= at.0 < at.1 < self.order.len(),
            self.order[at.0] == self.unselected()[i],
            self.order[at.1] == self.unselected()[j],
            !self.selected[self.unselected()[i] as int],
            !self.banned[self.unselected()[i] as int],
    {
        self.unselected_lists();
        assert(self.undecided(self.unselected()[i] as int));
        filter_keeps_order(self.order, |c: usize| self.undecided(c as int), i, j)
    }

    /// Taking candidates selects the first ones of those that are left, and no other.
    pub proof fn taking_selects_the_first(self, k: int, c: int)
        requires
            self.wf(),
            0 <= k <= self.unselected().len(),
            0 <= c < self.problem.n(),
        ensures
            self.taking(k).selected[c] <==> self.selected[c] || exists|i: int|
                0 <= i < k && #[trigger] self.unselected()[i] == c,
            self.taking(k).banned == self.banned,
            self.taking(k).order == self.order,
            self.taking(k).problem == self.problem,
            self.undecided(c) <==> !self.selected[c] && !self.banned[c],
    {
        let first = self.unselected().take(k);
        if first.contains(c as usize) {
            let i = choose|i: int| 0 <= i < first.len() && first[i] == c as usize;
            assert(self.unselected()[i] == c);
        }
        if exists|i: int| 0 <= i < k && #[trigger] self.unselected()[i] == c {
            let i = choose|i: int| 0 <= i < k && #[trigger] self.unselected()[i] == c;
            assert(first[i] == c as usize);
        }
    }

    /// A policy makes change exactly if some change above its least value could be paid for, and
    /// then as much as can be: the target is covered with it, and with no satoshi more.
    pub proof fn change_takes_all_it_can(self, policy: ChangePolicy, value: u64)
        requires
            self.wf(),
            self.problem.fits(Drain { weights: policy.drain_weights, value: 0 }),
            value > policy.min_value,
        ensures
            self.problem.funded(self.selected, Drain { weights: policy.drain_weights, value })
                ==> self.drain(policy).weights == policy.drain_weights && self.drain(policy).value
                >= value,
            self.drain(policy).weights == policy.drain_weights && self.drain(policy).value >= value
                ==> self.problem.funded(
                self.selected,
                Drain { weights: policy.drain_weights, value },
            ),
            self.drain(policy) != Drain::spec_none() ==> self.drain(policy).weights
                == policy.drain_weights && self.drain(policy).value > policy.min_value,
    {
        let p = self.problem;
        p.selection_bounded(self.selected);
        p.fees_bounded(self.selected, policy.drain_weights);
    }

    /// A selection is reported to be fundable exactly if it covers the target, or would with every
    /// candidate added that is not banned and is worth more than its weight costs.
    pub proof fn fundable_with_all_that_pays(self, t: Seq<bool>)
        requires
            self.wf(),
            t.len() == self.problem.n(),
            forall|c: int|
                0 <= c < t.len() ==> (#[trigger] t[c] <==> self.selected[c] || (!self.banned[c]
                    && self.problem.candidates[c].value * 4000 > self.problem.candidates[c].weight
                    * self.problem.target.fee.rate@)),
        ensures
            self.with_all_effective().selected == t,
            self.fundable() <==> self.problem.funded(self.selected, Drain::spec_none())
                || self.problem.funded(t, Drain::spec_none()),
    {
        assert(self.with_all_effective().selected =~= t);
    }

    /// What is asked of the candidates that are left is asked of each of them.
    pub proof fn what_is_left_is_asked_one_by_one(self)
        requires
            self.wf(),
        ensures
            self.weightless_value_left() <==> exists|c: int|
                0 <= c < self.problem.n() && !self.selected[c] && !self.banned[c]
                    && (#[trigger] self.problem.candidates[c]).weight == 0
                    && self.problem.candidates[c].value > 0,
            self.all_worth_selecting() <==> forall|c: int|
                0 <= c < self.problem.n() && !self.selected[c] && !self.banned[c] ==> (
                #[trigger] self.problem.candidates[c]).value * 4000
                    > self.problem.candidates[c].weight * self.problem.target.fee.rate@,
    {
        if exists|c: int|
            0 <= c < self.problem.n() && !self.selected[c] && !self.banned[c]
                && (#[trigger] self.problem.candidates[c]).weight == 0
                && self.problem.candidates[c].value > 0 {
            let c = choose|c: int|
                0 <= c < self.problem.n() && !self.selected[c] && !self.banned[c]
                    && (#[trigger] self.problem.candidates[c]).weight == 0
                    && self.problem.candidates[c].value > 0;
            assert(self.undecided(c));
        }
        if self.all_worth_selecting() {
            assert forall|c: int|
                0 <= c < self.problem.n() && !self.selected[c] && !self.banned[c] implies (
            #[trigger] self.problem.candidates[c]).value * 4000 > self.problem.candidates[c].weight
                * self.problem.target.fee.rate@ by {
                assert(self.undecided(c));
            }
        }
    }

    /// The fee floor is the least that meets every constraint on the weight so far, with feerates
    /// applied to weight units and the lower bound in place of the bump.
    pub proof fn fee_floor_is_least(self, paid: int)
        requires
            self.wf(),
            self.problem.target.fee.replace is Some || paid >= 0,
        ensures
            ({
                let p = self.problem;
                let fee = p.target.fee;
                let weight = p.tx_weight(self.selected, DrainWeights::spec_none());
                let bump = p.bump_lower_bound(self.selected, self.reachable());
                paid >= self.fee_floor() <==> {
                    &&& (paid - bump) * 4000 >= weight * fee.rate@
                    &&& paid >= fee.absolute
                    &&& fee.replace matches Some(replace) ==> (paid - replace.fee) * 4000 >= weight
                        * replace.incremental_relay_feerate@
                }
            }),
    {
        let p = self.problem;
        let fee = p.target.fee;
        let weight = p.tx_weight(self.selected, DrainWeights::spec_none());
        let bump = p.bump_lower_bound(self.selected, self.reachable());
        let vbytes = FeeRate::weight_fills_vbytes(weight);
        p.selection_bounded(self.selected);
        fee.rate.fee_is_least(weight, vbytes, paid - bump);
        fee.rate.fee_wu_at_most_fee(weight);
        if let Some(replace) = fee.replace {
            replace.replacing_pays_twice(weight, vbytes, paid);
            replace.incremental_relay_feerate.fee_wu_at_most_fee(weight);
        }
    }

    /// The excess in reach is that of selecting all that is worth it: what is then paid, less the
    /// fee on the weight so far, the fee on the weight that is added, and the lower bound on the
    /// bump.
    pub proof fn reachable_excess_takes_all_that_pays(self)
        requires
            self.wf(),
        ensures
            ({
                let p = self.problem;
                let rate = p.target.fee.rate;
                let all = self.with_all_effective().selected;
                self.best_reachable_rate_excess() == p.value_of(all) - p.target.outputs.value_sum
                    - rate.fee_wu(p.tx_weight(self.selected, DrainWeights::spec_none()))
                    - rate.fee_wu(p.weight_of(all) - p.weight_of(self.selected))
                    - p.bump_lower_bound(self.selected, self.reachable())
            }),
    {
        let p = self.problem;
        let all = self.with_all_effective().selected;
        let worth = p.worth(self.reachable());
        assert forall|c: int| 0 <= c < all.len() implies #[trigger] all[c] == (self.selected[c]
            || worth[c]) && !(self.selected[c] && worth[c]) by {}
        sums::lemma_over_split(all, self.selected, worth, |c: int| p.candidates[c].value as int);
        sums::lemma_over_split(all, self.selected, worth, |c: int| p.candidates[c].weight as int);
    }

    /// A selection extends another if it keeps what that selects, and adds nothing that is banned.
    pub proof fn extending_keeps_and_spares(self, t: Seq<bool>)
        requires
            self.wf(),
            t.len() == self.problem.n(),
        ensures
            self.extended_by(t) <==> forall|c: int|
                0 <= c < self.problem.n() ==> (self.selected[c] ==> #[trigger] t[c]) && (t[c]
                    && !self.selected[c] ==> !self.banned[c]),
    {
    }
}

/// What a filter keeps comes in the order that it had.
proof fn filter_keeps_order(
    s: Seq<usize>,
    p: spec_fn(usize) -> bool,
    i: int,
    j: int,
) -> (at: (int, int))
    requires
        0 <= i < j < s.filter(p).len(),
    ensures
        0 <= at.0 < at.1 < s.len(),
        s[at.0] == s.filter(p)[i],
        s[at.1] == s.filter(p)[j],
    decreases s.len(),
{
    reveal(Seq::filter);
    let rest = s.drop_last();
    if j < rest.filter(p).len() {
        filter_keeps_order(rest, p, i, j)
    } else {
        let a = filter_keeps(rest, p, i);
        (a, s.len() - 1)
    }
}

proof fn filter_keeps(s: Seq<usize>, p: spec_fn(usize) -> bool, i: int) -> (at: int)
    requires
        0 <= i < s.filter(p).len(),
    ensures
        0 <= at < s.len(),
        s[at] == s.filter(p)[i],
    decreases s.len(),
{
    reveal(Seq::filter);
    let rest = s.drop_last();
    if i < rest.filter(p).len() {
        filter_keeps(rest, p, i)
    } else {
        s.len() - 1
    }
}

/// What no real problem exceeds: all the money there is in satoshis, and a thousand blocks of
/// weight.
pub open spec fn is_realistic(p: ProblemView, drain: Drain) -> bool {
    let money: int = 2_100_000_000_000_000;
    let weight: int = 4_000_000_000;
    let rate: int = 1_000_000_000;
    let all = p.everything();
    let fee = p.target.fee;
    &&& p.n() <= weight
    &&& p.value_of(all) <= money
    &&& p.weight_of(all) <= weight
    &&& p.segwit_of(all) + p.legacy_of(all) <= weight
    &&& sums::sum(p.m(), |a: int| p.ancestors[a].0 as int) <= weight
    &&& sums::sum(p.m(), |a: int| p.ancestors[a].1 as int) <= money
    &&& fee.rate@ <= rate
    &&& fee.absolute <= money
    &&& fee.replace matches Some(replace) ==> replace.fee <= money
        && replace.incremental_relay_feerate@ <= rate
    &&& p.target.outputs.value_sum <= money
    &&& p.target.outputs.weight_sum <= weight
    &&& p.target.outputs.n_outputs <= 1_000_000_000
    &&& drain.value <= money
    &&& drain.weights.output_weight <= weight
    &&& drain.weights.spend_weight <= weight
    &&& drain.weights.n_outputs <= 1_000_000_000
}

impl ProblemView {
    /// Every amount of a problem can be represented that does not ask for more money than there is,
    /// nor for more weight than a thousand blocks hold, nor for a higher feerate than a million
    /// satoshis per virtual byte.
    pub proof fn realistic_problems_fit(self, drain: Drain)
        requires
            is_realistic(self, drain),
        ensures
            self.sums_fit(),
            self.weights_fit(drain.weights),
            self.fits(drain),
    {
        let fee = self.target.fee;
        let all = self.everything();
        self.selection_bounded(all);
        let heaviest = self.heaviest(drain.weights);
        assert(heaviest <= 20_000_000_000);
        rates_cost_little(fee.rate, heaviest);
        rates_cost_little(fee.rate, self.all_ancestor_weight());
        if let Some(replace) = fee.replace {
            rates_cost_little(replace.incremental_relay_feerate, heaviest);
        }
    }
}

/// What a realistic weight costs at a realistic feerate.
proof fn rates_cost_little(rate: FeeRate, weight: int)
    requires
        rate@ <= 1_000_000_000,
        0 <= weight <= 20_000_000_000,
    ensures
        0 <= rate.fee_wu(weight) <= rate.fee(weight) <= 5_000_001_000_000_000,
{
    let vbytes = FeeRate::weight_fills_vbytes(weight);
    rate.fee_wu_at_most_fee(weight);
    let most: int = 5_000_001_000_000_000;
    assert(most * 1000 >= vbytes * rate@) by (nonlinear_arith)
        requires
            rate@ <= 1_000_000_000,
            0 <= vbytes <= 5_000_000_001,
            most == 5_000_001_000_000_000,
    ;
    rate.fee_is_least(weight, vbytes, most);
}

/// Problems that are realistic are reported to fit.
pub proof fn realistic_problems_are_accepted(
    problem: &SelectionProblem,
    drain: Drain,
    sums_fit: bool,
    fits: bool,
)
    requires
        is_realistic(problem@, drain),
        call_ensures(SelectionProblem::sums_fit, (problem,), sums_fit),
        call_ensures(SelectionProblem::fits, (problem, drain), fits),
    ensures
        sums_fit,
        fits,
{
    problem@.realistic_problems_fit(drain);
}

} // verus!
