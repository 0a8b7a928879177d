//! Facts about the model that the running totals and the bounds rest on.
use crate::bitset;
use crate::drain::DrainWeights;
use crate::feerate;
use crate::model::{ProblemView, SelectionState};
use crate::sums;
use vstd::prelude::*;

verus! {

impl ProblemView {
    /// Selecting more never lowers a sum over the selection.
    pub proof fn sums_monotone(self, s: Seq<bool>, t: Seq<bool>)
        requires
            bitset::subset(s, t),
        ensures
            0 <= self.value_of(s) <= self.value_of(t),
            0 <= self.weight_of(s) <= self.weight_of(t),
            0 <= self.segwit_of(s) <= self.segwit_of(t),
            0 <= self.legacy_of(s) <= self.legacy_of(t),
    {
        sums::lemma_over_le(s, t, |c: int| self.candidates[c].value as int);
        sums::lemma_over_le(s, t, |c: int| self.candidates[c].weight as int);
        sums::lemma_over_le(s, t, |c: int| self.candidates[c].segwit_count as int);
        sums::lemma_over_le(s, t, |c: int| self.candidates[c].legacy_count as int);
    }

    /// Selecting candidate `c` adds what it holds to each sum.
    pub proof fn sums_insert(self, s: Seq<bool>, c: int)
        requires
            s.len() == self.n(),
            0 <= c < self.n(),
            !s[c],
        ensures
            self.value_of(s.update(c, true)) == self.value_of(s) + self.candidates[c].value,
            self.weight_of(s.update(c, true)) == self.weight_of(s) + self.candidates[c].weight,
            self.segwit_of(s.update(c, true)) == self.segwit_of(s)
                + self.candidates[c].segwit_count,
            self.legacy_of(s.update(c, true)) == self.legacy_of(s)
                + self.candidates[c].legacy_count,
    {
        sums::lemma_over_insert(s, |c: int| self.candidates[c].value as int, c);
        sums::lemma_over_insert(s, |c: int| self.candidates[c].weight as int, c);
        sums::lemma_over_insert(s, |c: int| self.candidates[c].segwit_count as int, c);
        sums::lemma_over_insert(s, |c: int| self.candidates[c].legacy_count as int, c);
    }

    /// Nothing selected sums to nothing.
    pub proof fn sums_empty(self, s: Seq<bool>)
        requires
            forall|c: int| 0 <= c < s.len() ==> !#[trigger] s[c],
        ensures
            self.value_of(s) == 0,
            self.weight_of(s) == 0,
            self.segwit_of(s) == 0,
            self.legacy_of(s) == 0,
    {
        sums::lemma_over_empty(s, |c: int| self.candidates[c].value as int);
        sums::lemma_over_empty(s, |c: int| self.candidates[c].weight as int);
        sums::lemma_over_empty(s, |c: int| self.candidates[c].segwit_count as int);
        sums::lemma_over_empty(s, |c: int| self.candidates[c].legacy_count as int);
    }

    /// Selecting more never makes the transaction lighter.
    pub proof fn weight_monotone(self, s: Seq<bool>, t: Seq<bool>, drain: DrainWeights)
        requires
            bitset::subset(s, t),
        ensures
            self.input_weight(s) <= self.input_weight(t),
            self.tx_weight(s, drain) <= self.tx_weight(t, drain),
            self.within_max_weight(t, drain) ==> self.within_max_weight(s, drain),
    {
        self.sums_monotone(s, t);
    }

    /// Ancestor `a` is dragged in exactly when some candidate of `s` counts for it.
    pub proof fn dragged_is_counted(self, s: Seq<bool>, a: int)
        requires
            s.len() == self.n(),
        ensures
            0 <= self.draggers(s, a) <= self.draggers(self.everything(), a),
            self.draggers(s, a) <= self.n(),
            self.dragged(s, a) <==> self.draggers(s, a) > 0,
    {
        let f = |c: int| if self.drags[c][a] { 1int } else { 0 };
        sums::lemma_over_le(s, self.everything(), f);
        let g = |c: int| if s[c] { f(c) } else { 0 };
        Self::sum_of_ones(self.n(), g);
        if self.dragged(s, a) {
            let c = choose|c: int| 0 <= c < self.n() && s[c] && #[trigger] self.drags[c][a];
            sums::lemma_sum_term(self.n(), g, c);
        }
        if self.draggers(s, a) > 0 {
            let c = sums::lemma_sum_witness(self.n(), g);
            assert(self.drags[c][a]);
        }
    }

    proof fn sum_of_ones(n: int, g: spec_fn(int) -> int)
        requires
            n >= 0,
            forall|i: int| 0 <= i < n ==> #[trigger] g(i) <= 1,
        ensures
            sums::sum(n, g) <= n,
        decreases n,
    {
        if n > 0 {
            Self::sum_of_ones(n - 1, g);
            assert(g(n - 1) <= 1);
        }
    }

    /// Selecting candidate `c` adds one to the count of each ancestor that it drags in.
    pub proof fn draggers_insert(self, s: Seq<bool>, c: int, a: int)
        requires
            s.len() == self.n(),
            0 <= c < self.n(),
            !s[c],
        ensures
            self.draggers(s.update(c, true), a) == self.draggers(s, a) + (if self.drags[c][a] {
                1int
            } else {
                0
            }),
    {
        sums::lemma_over_insert(s, |c: int| if self.drags[c][a] { 1int } else { 0 }, c);
    }

    /// For each ancestor, whether `s` drags it in and no two candidates do.
    pub open spec fn own(self, s: Seq<bool>) -> Seq<bool> {
        Seq::new(self.ancestors.len(), |a: int| !self.is_shared(a) && self.dragged(s, a))
    }

    /// For each ancestor, whether `s` drags it in and several candidates do.
    pub open spec fn shared_of(self, s: Seq<bool>) -> Seq<bool> {
        Seq::new(self.ancestors.len(), |a: int| self.is_shared(a) && self.dragged(s, a))
    }

    /// Adding up what each candidate of `s` alone drags in counts no ancestor twice.
    pub proof fn private_sums_once(self, s: Seq<bool>, v: spec_fn(int) -> int)
        requires
            self.wf(),
            s.len() == self.n(),
        ensures
            sums::over(s, |c: int| sums::over(self.privates(c), v)) == sums::over(self.own(s), v),
    {
        let f = |c: int, a: int| if s[c] && self.is_private(c, a) { v(a) } else { 0 };
        let rows = |c: int| if s[c] { sums::over(self.privates(c), v) } else { 0 };
        let cols = |a: int| if self.own(s)[a] { v(a) } else { 0 };
        assert forall|c: int| 0 <= c < self.n() implies #[trigger] rows(c) == sums::sum(
            self.m(),
            |a: int| f(c, a),
        ) by {
            if s[c] {
                let p = self.privates(c);
                sums::lemma_sum_ext(
                    self.m(),
                    |a: int| if p[a] { v(a) } else { 0 },
                    |a: int| f(c, a),
                );
            } else {
                sums::lemma_sum_zero(self.m(), |a: int| f(c, a));
            }
        }
        assert forall|a: int| 0 <= a < self.m() implies #[trigger] cols(a) == sums::sum(
            self.n(),
            |c: int| f(c, a),
        ) by {
            self.dragged_is_counted(s, a);
            if self.own(s)[a] {
                let c = choose|c: int| 0 <= c < self.n() && s[c] && #[trigger] self.drags[c][a];
                self.only_dragger(s, a, c);
                sums::lemma_sum_change(self.n(), |c: int| 0int, |c: int| f(c, a), c);
                sums::lemma_sum_zero(self.n(), |c: int| 0int);
            } else {
                let column = |c: int| f(c, a);
                assert forall|c: int| 0 <= c < self.n() implies #[trigger] column(c) == 0 by {
                    if s[c] && self.is_private(c, a) {
                        assert(self.drags[c][a]);
                    }
                }
                sums::lemma_sum_zero(self.n(), column);
                sums::lemma_sum_ext(self.n(), column, |c: int| f(c, a));
            }
        }
        sums::lemma_sum_swap(self.n(), self.m(), rows, cols, f);
        sums::lemma_sum_ext(
            self.n(),
            rows,
            |c: int| if s[c] { (|c: int| sums::over(self.privates(c), v))(c) } else { 0 },
        );
        let own = self.own(s);
        sums::lemma_sum_ext(self.m(), cols, |a: int| if own[a] { v(a) } else { 0 });
    }

    /// An ancestor that is not shared has one dragger only.
    proof fn only_dragger(self, s: Seq<bool>, a: int, c: int)
        requires
            s.len() == self.n(),
            !self.is_shared(a),
            0 <= c < self.n(),
            self.drags[c][a],
        ensures
            forall|d: int| 0 <= d < self.n() && d != c ==> !#[trigger] self.drags[d][a],
    {
        assert forall|d: int| 0 <= d < self.n() && d != c implies !#[trigger] self.drags[d][a] by {
            if self.drags[d][a] {
                let f = |c: int| if self.drags[c][a] { 1int } else { 0 };
                let all = self.everything();
                sums::lemma_over_remove(all, f, c);
                let rest = all.update(c, false);
                sums::lemma_over_remove(rest, f, d);
                let fewer = rest.update(d, false);
                sums::lemma_over_le(fewer, all, f);
            }
        }
    }

    /// The ancestors of a selection are those that belong to one candidate each and the shared
    /// ones.
    pub proof fn union_split(self, s: Seq<bool>, v: spec_fn(int) -> int)
        requires
            self.wf(),
            s.len() == self.n(),
        ensures
            sums::over(self.union(s), v) == sums::over(
                s,
                |c: int| sums::over(self.privates(c), v),
            ) + sums::over(self.shared_of(s), v),
    {
        self.private_sums_once(s, v);
        sums::lemma_over_split(self.union(s), self.own(s), self.shared_of(s), v);
    }

    /// A sum over some of the ancestors is at most the sum over all.
    pub proof fn ancestor_sums_bounded(self, u: Seq<bool>)
        requires
            u.len() == self.m(),
        ensures
            0 <= sums::over(u, |a: int| self.ancestors[a].0 as int) <= self.all_ancestor_weight(),
            0 <= sums::over(u, |a: int| self.ancestors[a].1 as int) <= self.all_ancestor_fee(),
    {
        let w = |a: int| self.ancestors[a].0 as int;
        let f = |a: int| self.ancestors[a].1 as int;
        sums::lemma_over_le(u, u, w);
        sums::lemma_over_le(u, u, f);
        sums::lemma_sum_le(self.m(), |a: int| if u[a] { w(a) } else { 0 }, w);
        sums::lemma_sum_le(self.m(), |a: int| if u[a] { f(a) } else { 0 }, f);
        sums::lemma_sum_ext(self.m(), w, |a: int| self.ancestors[a].0 as int);
        sums::lemma_sum_ext(self.m(), f, |a: int| self.ancestors[a].1 as int);
    }

    /// What a group pays above a rate is at most its fee.
    pub proof fn surplus_bounded(rate: crate::feerate::FeeRate, weight: int, fee: int)
        requires
            weight >= 0,
            fee >= 0,
        ensures
            0 <= Self::surplus(rate, weight, fee) <= fee,
    {
        assert(weight * rate@ >= 0) by (nonlinear_arith)
            requires
                weight >= 0,
                rate@ >= 0,
        ;
    }

    /// The sums over what each candidate of `s` alone drags in.
    pub open spec fn private_weights(self, s: Seq<bool>) -> int {
        sums::over(s, |c: int| self.private_weight(c))
    }

    /// See `private_weights`.
    pub open spec fn private_fees(self, s: Seq<bool>) -> int {
        sums::over(s, |c: int| self.private_fee(c))
    }

    /// See `private_weights`.
    pub open spec fn private_surpluses(self, s: Seq<bool>) -> int {
        sums::over(s, |c: int| self.private_surplus(c))
    }

    /// The ancestors of a selection are split into private and shared ones, and no sum over them
    /// exceeds the sum over all ancestors.
    pub proof fn ancestor_split(self, s: Seq<bool>)
        requires
            self.wf(),
            s.len() == self.n(),
        ensures
            self.ancestor_weight(s) == self.private_weights(s) + sums::over(
                self.shared_of(s),
                |a: int| self.ancestors[a].0 as int,
            ),
            self.ancestor_fee(s) == self.private_fees(s) + sums::over(
                self.shared_of(s),
                |a: int| self.ancestors[a].1 as int,
            ),
            0 <= self.private_weights(s) <= self.all_ancestor_weight(),
            0 <= self.private_fees(s) <= self.all_ancestor_fee(),
            0 <= self.private_surpluses(s) <= self.private_fees(s),
    {
        let w = |a: int| self.ancestors[a].0 as int;
        let f = |a: int| self.ancestors[a].1 as int;
        self.union_split(s, w);
        self.union_split(s, f);
        self.private_sums_once(s, w);
        self.private_sums_once(s, f);
        self.ancestor_sums_bounded(self.own(s));
        sums::lemma_over_ext(
            s,
            s,
            |c: int| self.private_weight(c),
            |c: int| sums::over(self.privates(c), w),
        );
        sums::lemma_over_ext(
            s,
            s,
            |c: int| self.private_fee(c),
            |c: int| sums::over(self.privates(c), f),
        );
        assert forall|c: int| 0 <= c < s.len() implies 0 <= #[trigger] self.private_surplus(c)
            <= self.private_fee(c) by {
            self.ancestor_sums_bounded(self.privates(c));
            Self::surplus_bounded(
                self.target.fee.rate,
                self.private_weight(c),
                self.private_fee(c),
            );
        }
        sums::lemma_over_terms_le(
            s,
            |c: int| self.private_surplus(c),
            |c: int| self.private_fee(c),
        );
        sums::lemma_over_le(s, s, |c: int| self.private_surplus(c));
    }

    /// What some of the ancestors pay above the target rate, one by one, is at most their fee.
    pub proof fn shared_surplus_bounded(self, u: Seq<bool>)
        requires
            u.len() == self.m(),
        ensures
            0 <= sums::over(u, |a: int| self.ancestor_surplus(a)) <= sums::over(
                u,
                |a: int| self.ancestors[a].1 as int,
            ) <= self.all_ancestor_fee(),
    {
        assert forall|a: int| 0 <= a < u.len() implies 0 <= #[trigger] self.ancestor_surplus(a)
            <= self.ancestors[a].1 by {
            Self::surplus_bounded(
                self.target.fee.rate,
                self.ancestors[a].0 as int,
                self.ancestors[a].1 as int,
            );
        }
        sums::lemma_over_terms_le(
            u,
            |a: int| self.ancestor_surplus(a),
            |a: int| self.ancestors[a].1 as int,
        );
        sums::lemma_over_le(u, u, |a: int| self.ancestor_surplus(a));
        self.ancestor_sums_bounded(u);
    }

    /// Every sum over a selection stays within the limits of the problem.
    pub proof fn selection_bounded(self, s: Seq<bool>)
        requires
            s.len() == self.n(),
        ensures
            0 <= self.value_of(s) <= self.value_of(self.everything()),
            0 <= self.weight_of(s) <= self.weight_of(self.everything()),
            0 <= self.segwit_of(s) <= self.segwit_of(self.everything()),
            0 <= self.legacy_of(s) <= self.legacy_of(self.everything()),
            4 <= self.input_weight(s) <= self.heaviest_inputs(),
            0 <= self.ancestor_weight(s) <= self.all_ancestor_weight(),
            0 <= self.ancestor_fee(s) <= self.all_ancestor_fee(),
    {
        self.sums_monotone(s, self.everything());
        self.ancestor_sums_bounded(self.union(s));
    }

    /// Every fee of a selection stays within the limits of the problem.
    pub proof fn fees_bounded(self, s: Seq<bool>, drain: DrainWeights)
        requires
            s.len() == self.n(),
        ensures
            36 <= self.tx_weight(s, drain) <= self.heaviest(drain),
            0 <= self.target.fee.rate.fee_wu(self.tx_weight(s, drain))
                <= self.target.fee.rate.fee(self.tx_weight(s, drain)),
            0 <= self.bump(s) <= self.target.fee.rate.fee_wu(self.all_ancestor_weight()),
            self.rate_fee_wu(s, drain) <= self.rate_fee(s, drain) <= self.highest_fee(drain),
            0 <= self.target.fee.replacement_fee_wu(self.tx_weight(s, drain))
                <= self.target.fee.replacement_fee(self.tx_weight(s, drain))
                <= self.highest_fee(drain),
            0 <= self.fee_owed(s, drain) <= self.highest_fee(drain),
    {
        self.selection_bounded(s);
        let fee = self.target.fee;
        let w = self.tx_weight(s, drain);
        fee.rate.fee_monotone(w, self.heaviest(drain));
        fee.rate.fee_wu_at_most_fee(w);
        fee.rate.fee_wu_at_most_fee(self.ancestor_weight(s));
        fee.rate.fee_monotone(self.ancestor_weight(s), self.all_ancestor_weight());
        if let Some(replace) = fee.replace {
            replace.incremental_relay_feerate.fee_monotone(w, self.heaviest(drain));
            replace.incremental_relay_feerate.fee_wu_at_most_fee(w);
        }
    }

    /// What ancestor `a` pays above the target rate, 4000 times over and negative where it lacks.
    pub open spec fn scaled_gain(self, a: int) -> int {
        4000 * self.ancestors[a].1 - self.target.fee.rate@ * self.ancestors[a].0
    }

    /// What the ancestors of `u` pay together above the target rate, 4000 times over.
    proof fn scaled_gain_of(self, u: Seq<bool>)
        requires
            u.len() == self.m(),
        ensures
            sums::over(u, |a: int| self.scaled_gain(a)) == 4000 * sums::over(
                u,
                |a: int| self.ancestors[a].1 as int,
            ) - self.target.fee.rate@ * sums::over(u, |a: int| self.ancestors[a].0 as int),
    {
        let rate = self.target.fee.rate@ as int;
        let w = |a: int| self.ancestors[a].0 as int;
        let f = |a: int| self.ancestors[a].1 as int;
        let g = |a: int| self.scaled_gain(a);
        assert forall|a: int| 0 <= a < u.len() implies #[trigger] g(a) == 4000 * f(a) + (-rate)
            * w(a) by {
            let x = w(a);
            assert((-rate) * x == -(rate * x)) by (nonlinear_arith);
        }
        sums::lemma_over_linear(u, f, w, g, 4000, -rate);
        let total = sums::over(u, w);
        assert((-rate) * total == -(rate * total)) by (nonlinear_arith);
    }

    /// A selection that adds candidates of `r` to `s` gains at most the reachable surplus.
    proof fn gain_bounded(self, s: Seq<bool>, r: Seq<bool>, t: Seq<bool>)
        requires
            self.wf(),
            r.len() == self.n(),
            t.len() == self.n(),
            bitset::subset(s, t),
            forall|c: int| 0 <= c < t.len() && #[trigger] t[c] && !s[c] ==> r[c],
        ensures
            sums::over(self.union(t), |a: int| self.scaled_gain(a)) <= sums::over(
                self.union(s),
                |a: int| self.scaled_gain(a),
            ) + 4000 * self.reachable_surplus(s, r),
    {
        let rate = self.target.fee.rate@ as int;
        let g = |a: int| self.scaled_gain(a);
        let per = |c: int| sums::over(self.privates(c), g);
        let fresh = Seq::new(t.len(), |c: int| t[c] && !s[c]);
        self.union_split(s, g);
        self.union_split(t, g);
        // Private ancestors arrive with their candidate, as a group.
        sums::lemma_over_split(t, s, fresh, per);
        let scaled = |c: int| 4000 * self.private_surplus(c);
        assert forall|c: int| 0 <= c < fresh.len() && fresh[c] implies #[trigger] per(c) <= scaled(
            c,
        ) by {
            self.scaled_gain_of(self.privates(c));
            let (x, y) = (self.private_weight(c), self.private_fee(c));
            assert(rate * x == x * rate) by (nonlinear_arith);
        }
        sums::lemma_over_terms_le(fresh, per, scaled);
        let surplus = |c: int| self.private_surplus(c);
        sums::lemma_over_linear(fresh, surplus, surplus, scaled, 4000, 0);
        assert forall|c: int| 0 <= c < r.len() implies #[trigger] surplus(c) >= 0 by {}
        sums::lemma_over_le(fresh, r, surplus);
        // Shared ancestors are credited one by one.
        let shared = Seq::new(
            self.ancestors.len(),
            |a: int| self.shared_of(t)[a] && !self.shared_of(s)[a],
        );
        assert forall|a: int| 0 <= a < self.m() implies #[trigger] self.shared_of(t)[a] == (
        self.shared_of(s)[a] || shared[a]) by {
            if self.dragged(s, a) {
                let c = choose|c: int| 0 <= c < self.n() && s[c] && #[trigger] self.drags[c][a];
                assert(t[c] && self.drags[c][a]);
            }
        }
        sums::lemma_over_split(self.shared_of(t), self.shared_of(s), shared, g);
        let one = |a: int| self.ancestor_surplus(a);
        let scaled_one = |a: int| 4000 * self.ancestor_surplus(a);
        assert forall|a: int| 0 <= a < shared.len() && shared[a] implies #[trigger] g(a)
            <= scaled_one(a) by {
            let x = self.ancestors[a].0 as int;
            assert(rate * x == x * rate) by (nonlinear_arith);
        }
        sums::lemma_over_terms_le(shared, g, scaled_one);
        sums::lemma_over_linear(shared, one, one, scaled_one, 4000, 0);
        let addable = self.addable_shared(s, r);
        assert forall|a: int| 0 <= a < shared.len() && #[trigger] shared[a] implies addable[a] by {
            let c = choose|c: int| 0 <= c < self.n() && t[c] && #[trigger] self.drags[c][a];
            assert(!s[c]);
            assert(r[c] && self.drags[c][a]);
        }
        sums::lemma_over_le(shared, addable, one);
    }

    /// The lower bound on the bump holds of every selection that adds candidates of `r` to `s`,
    /// `s` itself among them.
    pub proof fn bump_lower_bound_holds(self, s: Seq<bool>, r: Seq<bool>, t: Seq<bool>)
        requires
            self.wf(),
            self.target.fee.rate.fee_wu(self.all_ancestor_weight()) <= u64::MAX,
            r.len() == self.n(),
            t.len() == self.n(),
            bitset::subset(s, t),
            forall|c: int| 0 <= c < t.len() && #[trigger] t[c] && !s[c] ==> r[c],
        ensures
            self.bump_lower_bound(s, r) <= self.bump(t),
    {
        let rate = self.target.fee.rate@ as int;
        self.gain_bounded(s, r, t);
        self.scaled_gain_of(self.union(s));
        self.scaled_gain_of(self.union(t));
        self.selection_bounded(t);
        self.target.fee.rate.fee_monotone(self.ancestor_weight(t), self.all_ancestor_weight());
        let (x, y) = (self.ancestor_weight(s), self.ancestor_weight(t));
        assert(rate * x == x * rate) by (nonlinear_arith);
        assert(rate * y == y * rate) by (nonlinear_arith);
    }

    /// Where no candidate drags in an ancestor, nothing is owed for any.
    pub proof fn no_ancestors_no_bump(self, s: Seq<bool>)
        requires
            self.wf(),
            !self.has_private(),
            !self.has_shared(),
            s.len() == self.n(),
        ensures
            self.ancestor_weight(s) == 0,
            self.ancestor_fee(s) == 0,
            self.bump(s) == 0,
    {
        assert forall|a: int| 0 <= a < self.m() implies !#[trigger] self.union(s)[a] by {
            if self.dragged(s, a) {
                let c = choose|c: int| 0 <= c < self.n() && s[c] && #[trigger] self.drags[c][a];
                assert(self.is_private(c, a) || self.is_shared(a));
            }
        }
        sums::lemma_over_empty(self.union(s), |a: int| self.ancestors[a].0 as int);
        sums::lemma_over_empty(self.union(s), |a: int| self.ancestors[a].1 as int);
        assert(0 * self.target.fee.rate@ == 0) by (nonlinear_arith);
    }

    /// Where no candidate drags in an ancestor, nothing is owed by any extension either.
    pub proof fn no_ancestors_no_lower_bound(self, s: Seq<bool>, r: Seq<bool>)
        requires
            self.wf(),
            !self.has_private(),
            !self.has_shared(),
            s.len() == self.n(),
            r.len() == self.n(),
        ensures
            self.bump_lower_bound(s, r) == 0,
    {
        self.no_ancestors_no_bump(s);
        self.ancestor_split(r);
        self.shared_surplus_bounded(self.addable_shared(s, r));
        assert(0 * self.target.fee.rate@ == 0) by (nonlinear_arith);
    }

    /// The lower bound on the bump stays within the limits of the problem.
    pub proof fn lower_bound_bounded(self, s: Seq<bool>, r: Seq<bool>)
        requires
            self.wf(),
            s.len() == self.n(),
            r.len() == self.n(),
        ensures
            0 <= self.bump_lower_bound(s, r) <= self.target.fee.rate.fee_wu(
                self.all_ancestor_weight(),
            ),
            0 <= self.reachable_surplus(s, r),
    {
        self.selection_bounded(s);
        self.ancestor_split(r);
        self.shared_surplus_bounded(self.addable_shared(s, r));
        self.target.fee.rate.fee_monotone(self.ancestor_weight(s), self.all_ancestor_weight());
        self.target.fee.rate.fee_wu_at_most_fee(self.ancestor_weight(s));
    }
}

impl SelectionState {
    /// The selection and the undecided candidates that are worth selecting share nothing, so their
    /// sums together stay within the limits of the problem.
    pub proof fn selected_and_worth_bounded(self)
        requires
            self.wf(),
        ensures
            ({
                let p = self.problem;
                let worth = p.worth(self.reachable());
                let none = DrainWeights::spec_none();
                &&& 0 <= p.value_of(worth)
                &&& 0 <= p.weight_of(worth)
                &&& p.value_of(self.selected) + p.value_of(worth) <= p.value_of(p.everything())
                &&& p.tx_weight(self.selected, none) + p.weight_of(worth) <= p.heaviest(none)
            }),
    {
        let p = self.problem;
        let worth = p.worth(self.reachable());
        let both = Seq::new(self.selected.len(), |c: int| self.selected[c] || worth[c]);
        sums::lemma_over_split(
            both,
            self.selected,
            worth,
            |c: int| p.candidates[c].value as int,
        );
        sums::lemma_over_split(
            both,
            self.selected,
            worth,
            |c: int| p.candidates[c].weight as int,
        );
        p.selection_bounded(both);
        p.selection_bounded(worth);
        p.selection_bounded(self.selected);
    }
}

} // verus!
