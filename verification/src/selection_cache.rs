//! Aggregates of a selection that are kept up to date step by step.
use crate::ancestor_totals::AncestorTotals;
use crate::bitset;
use crate::bitset::Bitset;
use crate::candidate::Candidate;
use crate::coin_selector::CoinSelector;
use crate::model::ProblemView;
use crate::selection_problem::SelectionProblem;
use crate::sums;
use crate::weights::varint_size;
use vstd::prelude::*;

verus! {

/// Running aggregates over a selection and over the candidates that are still undecided.
#[derive(Debug, PartialEq)]
pub struct SelectionCache {
    value_sum: u64,
    weight_sum: u64,
    segwit_count: usize,
    legacy_count: usize,
    ancestors: AncestorTotals,
    /// Value and weight of the undecided candidates that are worth selecting, i.e. whose value is
    /// more than their weight costs. The others only ever lower the total, so the pair stays an
    /// upper bound on what the rest of a branch can contribute.
    undecided_value: u64,
    undecided_weight: u64,
    /// Undecided candidates that weigh nothing but carry value. They make every fee deficit
    /// closable at no added weight.
    undecided_weightless_value: usize,
    selected: Bitset,
}

impl ProblemView {
    /// A candidate that weighs nothing is worth selecting exactly when it carries value.
    proof fn weightless_is_worth(self, c: int)
        requires
            self.candidates[c].weight == 0,
        ensures
            self.candidates[c].effective_at(self.target.fee.rate) <==> self.candidates[c].value > 0,
    {
        assert(0 * self.target.fee.rate@ == 0) by (nonlinear_arith);
    }
}

impl Clone for SelectionCache {
    fn clone(&self) -> (r: Self)
        ensures
            r.selection() == self.selection(),
            forall|p: ProblemView, s: Seq<bool>, r2: Seq<bool>|
                self.matches(p, s, r2) ==> #[trigger] r.matches(p, s, r2),
    {
        SelectionCache {
            value_sum: self.value_sum,
            weight_sum: self.weight_sum,
            segwit_count: self.segwit_count,
            legacy_count: self.legacy_count,
            ancestors: self.ancestors.clone(),
            undecided_value: self.undecided_value,
            undecided_weight: self.undecided_weight,
            undecided_weightless_value: self.undecided_weightless_value,
            selected: self.selected.clone(),
        }
    }
}

impl SelectionCache {
    /// The selection that is aggregated.
    pub closed spec fn selection(self) -> Seq<bool> {
        self.selected@
    }

    /// Whether these are the aggregates of the selection `s` with the undecided candidates `r`.
    pub closed spec fn matches(self, p: ProblemView, s: Seq<bool>, r: Seq<bool>) -> bool {
        &&& self.selected@ == s
        &&& self.value_sum == p.value_of(s)
        &&& self.weight_sum == p.weight_of(s)
        &&& self.segwit_count == p.segwit_of(s)
        &&& self.legacy_count == p.legacy_of(s)
        &&& self.ancestors.matches(p, s, r)
        &&& self.undecided_value == p.value_of(p.worth(r))
        &&& self.undecided_weight == p.weight_of(p.worth(r))
        &&& self.undecided_weightless_value == sums::over(p.weightless(r), |c: int| 1int)
    }

    /// Whether the candidate at `index` brings more value than its weight costs at the target
    /// feerate.
    fn is_worth_selecting(problem: &SelectionProblem, index: usize) -> (r: bool)
        requires
            index < problem@.n(),
        ensures
            r == problem@.candidates[index as int].effective_at(problem@.target.fee.rate),
    {
        problem.candidate(index).is_effective(problem.target().fee.rate)
    }

    /// What one more undecided candidate changes in the sums.
    proof fn undecided_insert(p: ProblemView, r: Seq<bool>, c: int)
        requires
            r.len() == p.n(),
            0 <= c < p.n(),
            !r[c],
        ensures
            ({
                let t = r.update(c, true);
                let candidate = p.candidates[c];
                let worth = candidate.effective_at(p.target.fee.rate);
                &&& p.value_of(p.worth(t)) == p.value_of(p.worth(r)) + (if worth {
                    candidate.value as int
                } else {
                    0
                })
                &&& p.weight_of(p.worth(t)) == p.weight_of(p.worth(r)) + (if worth {
                    candidate.weight as int
                } else {
                    0
                })
                &&& sums::over(p.weightless(t), |c: int| 1int) == sums::over(
                    p.weightless(r),
                    |c: int| 1int,
                ) + (if candidate.weight == 0 && candidate.value > 0 {
                    1int
                } else {
                    0
                })
                &&& sums::over(p.weightless(r), |c: int| 1int) <= p.n() - 1
                &&& sums::over(p.weightless(r), |c: int| 1int) >= 0
            }),
    {
        let t = r.update(c, true);
        if p.candidates[c].effective_at(p.target.fee.rate) {
            p.sums_insert(p.worth(r), c);
            assert(p.worth(t) =~= p.worth(r).update(c, true));
        } else {
            assert(p.worth(t) =~= p.worth(r));
        }
        let w = p.weightless(r);
        let one = |c: int| 1int;
        if p.candidates[c].weight == 0 && p.candidates[c].value > 0 {
            sums::lemma_over_insert(w, one, c);
            assert(p.weightless(t) =~= w.update(c, true));
        } else {
            assert(p.weightless(t) =~= w);
        }
        let full = w.update(c, true);
        sums::lemma_over_insert(w, one, c);
        sums::lemma_over_le(full, p.everything(), one);
        sums::lemma_over_le(w, p.everything(), one);
        Self::all_ones(p.n(), p.everything());
    }

    proof fn all_ones(n: int, s: Seq<bool>)
        requires
            0 <= n <= s.len(),
            forall|c: int| 0 <= c < s.len() ==> #[trigger] s[c],
        ensures
            sums::sum(n, |c: int| if s[c] { (|c: int| 1int)(c) } else { 0 }) == n,
        decreases n,
    {
        if n > 0 {
            Self::all_ones(n - 1, s);
            assert(s[n - 1]);
        }
    }

    /// The candidate at `index` became undecided.
    fn add_reachable(
        &mut self,
        problem: &SelectionProblem,
        index: usize,
        Ghost(s): Ghost<Seq<bool>>,
        Ghost(r): Ghost<Seq<bool>>,
    )
        requires
            problem.inv(),
            problem@.sums_fit(),
            index < problem@.n(),
            s.len() == problem@.n(),
            r.len() == problem@.n(),
            old(self).matches(problem@, s, r),
            !r[index as int],
        ensures
            final(self).matches(problem@, s, r.update(index as int, true)),
    {
        proof {
            let p = problem@;
            let t = r.update(index as int, true);
            problem.inv_shape();
            Self::undecided_insert(p, r, index as int);
            p.selection_bounded(p.worth(t));
            if p.candidates[index as int].weight == 0 {
                p.weightless_is_worth(index as int);
            }
        }
        if Self::is_worth_selecting(problem, index) {
            let candidate: Candidate = problem.candidate(index);
            self.undecided_value = self.undecided_value + candidate.value;
            self.undecided_weight = self.undecided_weight + candidate.weight;
            if candidate.weight == 0 && candidate.value > 0 {
                self.undecided_weightless_value = self.undecided_weightless_value + 1;
            }
        }
        self.ancestors.add_reachable(problem, index, Ghost(s), Ghost(r));
    }

    /// The candidate at `index` stopped being undecided.
    fn remove_reachable(
        &mut self,
        problem: &SelectionProblem,
        index: usize,
        Ghost(s): Ghost<Seq<bool>>,
        Ghost(r): Ghost<Seq<bool>>,
    )
        requires
            problem.inv(),
            problem@.sums_fit(),
            index < problem@.n(),
            s.len() == problem@.n(),
            r.len() == problem@.n(),
            old(self).matches(problem@, s, r),
            r[index as int],
        ensures
            final(self).matches(problem@, s, r.update(index as int, false)),
    {
        proof {
            let p = problem@;
            let t = r.update(index as int, false);
            assert(t.update(index as int, true) =~= r);
            Self::undecided_insert(p, t, index as int);
            p.selection_bounded(p.worth(t));
            if p.candidates[index as int].weight == 0 {
                p.weightless_is_worth(index as int);
            }
        }
        if Self::is_worth_selecting(problem, index) {
            let candidate: Candidate = problem.candidate(index);
            self.undecided_value = self.undecided_value - candidate.value;
            self.undecided_weight = self.undecided_weight - candidate.weight;
            if candidate.weight == 0 && candidate.value > 0 {
                self.undecided_weightless_value = self.undecided_weightless_value - 1;
            }
        }
        self.ancestors.remove_reachable(problem, index, Ghost(s), Ghost(r));
    }

    /// The weight of the inputs, including the input-count varint and witness overhead.
    pub(crate) fn input_weight(
        &self,
        Ghost(p): Ghost<ProblemView>,
        Ghost(s): Ghost<Seq<bool>>,
        Ghost(r): Ghost<Seq<bool>>,
    ) -> (weight: u64)
        requires
            p.sums_fit(),
            s.len() == p.n(),
            self.matches(p, s, r),
        ensures
            weight == p.input_weight(s),
    {
        proof {
            p.selection_bounded(s);
        }
        let input_count: usize = self.segwit_count + self.legacy_count;
        let input_varint_weight: u64 = varint_size(input_count) * 4;
        let witness_weight: u64 = if self.segwit_count > 0 {
            self.legacy_count as u64 + 2
        } else {
            0
        };
        input_varint_weight + self.weight_sum + witness_weight
    }

    /// Selects the candidate at `index`, unless it is selected already. `was_reachable` tells
    /// whether it was undecided.
    pub(crate) fn add(
        &mut self,
        problem: &SelectionProblem,
        index: usize,
        was_reachable: bool,
        Ghost(s): Ghost<Seq<bool>>,
        Ghost(r): Ghost<Seq<bool>>,
    )
        requires
            problem.inv(),
            problem@.sums_fit(),
            index < problem@.n(),
            s.len() == problem@.n(),
            r.len() == problem@.n(),
            old(self).matches(problem@, s, r),
            !s[index as int] ==> was_reachable == r[index as int],
            s[index as int] ==> !r[index as int],
        ensures
            final(self).matches(
                problem@,
                s.update(index as int, true),
                r.update(index as int, false),
            ),
    {
        let ghost t = s.update(index as int, true);
        let ghost left = r.update(index as int, false);
        if self.selected.contains(index) {
            proof {
                assert(t =~= s);
                assert(left =~= r);
            }
            return;
        }
        proof {
            problem@.sums_insert(s, index as int);
            problem@.selection_bounded(t);
        }
        if was_reachable {
            self.remove_reachable(problem, index, Ghost(s), Ghost(r));
        } else {
            proof {
                assert(left =~= r);
            }
        }
        let candidate: Candidate = problem.candidate(index);
        self.value_sum = self.value_sum + candidate.value;
        self.weight_sum = self.weight_sum + candidate.weight;
        self.segwit_count = self.segwit_count + candidate.segwit_count;
        self.legacy_count = self.legacy_count + candidate.legacy_count;
        self.ancestors.add_selected(problem, index, Ghost(s), Ghost(left));
        self.selected.insert(index);
    }

    /// Deselects the candidate at `index`, unless it is not selected. `is_addable` tells whether it
    /// is undecided from then on.
    pub(crate) fn sub(
        &mut self,
        problem: &SelectionProblem,
        index: usize,
        is_addable: bool,
        Ghost(s): Ghost<Seq<bool>>,
        Ghost(r): Ghost<Seq<bool>>,
    )
        requires
            problem.inv(),
            problem@.sums_fit(),
            index < problem@.n(),
            s.len() == problem@.n(),
            r.len() == problem@.n(),
            old(self).matches(problem@, s, r),
            s[index as int] ==> !r[index as int],
        ensures
            final(self).matches(
                problem@,
                s.update(index as int, false),
                if s[index as int] {
                    r.update(index as int, is_addable)
                } else {
                    r
                },
            ),
    {
        let ghost t = s.update(index as int, false);
        if !self.selected.contains(index) {
            proof {
                assert(t =~= s);
            }
            return;
        }
        proof {
            problem@.sums_insert(t, index as int);
            assert(t.update(index as int, true) =~= s);
            problem@.selection_bounded(t);
        }
        let candidate: Candidate = problem.candidate(index);
        self.value_sum = self.value_sum - candidate.value;
        self.weight_sum = self.weight_sum - candidate.weight;
        self.segwit_count = self.segwit_count - candidate.segwit_count;
        self.legacy_count = self.legacy_count - candidate.legacy_count;
        self.ancestors.sub_selected(problem, index, Ghost(s), Ghost(r));
        self.selected.remove(index);
        if is_addable {
            self.add_reachable(problem, index, Ghost(t), Ghost(r));
        } else {
            proof {
                assert(r.update(index as int, false) =~= r);
            }
        }
    }

    /// The candidate at `index`, which is not selected, was banned.
    pub(crate) fn ban(
        &mut self,
        problem: &SelectionProblem,
        index: usize,
        Ghost(s): Ghost<Seq<bool>>,
        Ghost(r): Ghost<Seq<bool>>,
    )
        requires
            problem.inv(),
            problem@.sums_fit(),
            index < problem@.n(),
            s.len() == problem@.n(),
            r.len() == problem@.n(),
            old(self).matches(problem@, s, r),
            r[index as int],
        ensures
            final(self).matches(problem@, s, r.update(index as int, false)),
    {
        self.remove_reachable(problem, index, Ghost(s), Ghost(r));
    }

    /// The ban on the candidate at `index`, which is not selected, was lifted.
    pub(crate) fn unban(
        &mut self,
        problem: &SelectionProblem,
        index: usize,
        Ghost(s): Ghost<Seq<bool>>,
        Ghost(r): Ghost<Seq<bool>>,
    )
        requires
            problem.inv(),
            problem@.sums_fit(),
            index < problem@.n(),
            s.len() == problem@.n(),
            r.len() == problem@.n(),
            old(self).matches(problem@, s, r),
            !r[index as int],
        ensures
            final(self).matches(problem@, s, r.update(index as int, true)),
    {
        self.add_reachable(problem, index, Ghost(s), Ghost(r));
    }

    /// The aggregates of a selector's selection, from scratch.
    pub fn from_selector(selector: &CoinSelector<'_>) -> (cache: Self)
        requires
            selector.inv(),
        ensures
            cache.selection() == selector@.selected,
            cache.matches(selector@.problem, selector@.selected, selector@.reachable()),
    {
        let problem: &SelectionProblem = selector.problem();
        let ghost p = problem@;
        let ghost n = p.n();
        let ghost state = selector@;
        let ghost mut s = Seq::new(p.candidates.len(), |c: int| false);
        let ghost mut r = p.everything();
        proof {
            selector.inv_wf();
            p.sums_empty(s);
        }
        // Every candidate starts undecided. The loops below account for those that are selected or
        // banned already.
        let mut cache = Self::all_undecided(problem);
        let selected: Vec<usize> = selector.selected_indices().iter();
        let mut k: usize = 0;
        while k < selected.len()
            invariant
                problem.inv(),
                p == problem@,
                p.sums_fit(),
                n == p.n(),
                state.selected.len() == n,
                bitset::lists(selected@, state.selected),
                k <= selected@.len(),
                cache.matches(p, s, r),
                s == Seq::new(
                    p.candidates.len(),
                    |c: int| exists|j: int| 0 <= j < k && #[trigger] selected@[j] == c,
                ),
                r == Seq::new(p.candidates.len(), |c: int| !s[c]),
            decreases selected@.len() - k,
        {
            let index: usize = selected[k];
            proof {
                assert(!s[index as int]) by {
                    if s[index as int] {
                        let j = choose|j: int| 0 <= j < k && #[trigger] selected@[j] == index;
                        assert(selected@[j] < selected@[k as int]);
                    }
                }
            }
            cache.add(problem, index, true, Ghost(s), Ghost(r));
            proof {
                let t = s.update(index as int, true);
                let next = Seq::new(
                    p.candidates.len(),
                    |c: int| exists|j: int| 0 <= j < k + 1 && #[trigger] selected@[j] == c,
                );
                assert forall|c: int| 0 <= c < n implies t[c] == next[c] by {
                    if t[c] && c != index {
                        let j = choose|j: int| 0 <= j < k && #[trigger] selected@[j] == c;
                        assert(selected@[j] == c);
                    }
                    if c == index {
                        assert(selected@[k as int] == c);
                    }
                }
                assert(t =~= next);
                r = r.update(index as int, false);
                s = t;
                assert(r =~= Seq::new(p.candidates.len(), |c: int| !s[c]));
            }
            k = k + 1;
        }
        proof {
            problem.inv_shape();
            assert forall|c: int| 0 <= c < n implies s[c] == state.selected[c] by {
                if s[c] {
                    let j = choose|j: int| 0 <= j < k && #[trigger] selected@[j] == c;
                    assert(state.selected[selected@[j] as int]);
                }
                if state.selected[c] {
                    assert(selected@.contains(c as usize));
                    let j = choose|j: int| 0 <= j < selected@.len() && selected@[j] == c as usize;
                    assert(selected@[j] == c);
                }
            }
            assert(s =~= state.selected);
        }
        let mut index: usize = 0;
        while index < problem.len()
            invariant
                problem.inv(),
                p == problem@,
                p.sums_fit(),
                n == p.n(),
                state == selector@,
                state.selected.len() == n,
                state.banned.len() == n,
                s == state.selected,
                index <= n,
                cache.matches(p, s, r),
                r == Seq::new(
                    p.candidates.len(),
                    |c: int| !s[c] && !(c < index && state.banned[c]),
                ),
            decreases n - index,
        {
            if selector.banned().contains(index) && !selector.is_selected(index) {
                cache.ban(problem, index, Ghost(s), Ghost(r));
                proof {
                    r = r.update(index as int, false);
                }
            }
            proof {
                assert(r =~= Seq::new(
                    p.candidates.len(),
                    |c: int| !s[c] && !(c < index + 1 && state.banned[c]),
                ));
            }
            index = index + 1;
        }
        proof {
            assert(r =~= state.reachable());
        }
        cache
    }

    /// The aggregates of a selection in which every candidate is undecided.
    fn all_undecided(problem: &SelectionProblem) -> (cache: Self)
        requires
            problem.inv(),
            problem@.sums_fit(),
        ensures
            cache.matches(
                problem@,
                Seq::new(problem@.candidates.len(), |c: int| false),
                problem@.everything(),
            ),
    {
        let ghost p = problem@;
        let ghost none = Seq::new(p.candidates.len(), |c: int| false);
        let mut cache = SelectionCache {
            value_sum: 0,
            weight_sum: 0,
            segwit_count: 0,
            legacy_count: 0,
            ancestors: AncestorTotals::nothing_reachable(problem),
            undecided_value: 0,
            undecided_weight: 0,
            undecided_weightless_value: 0,
            selected: Bitset::with_capacity(problem.len()),
        };
        let ghost mut r = none;
        proof {
            p.sums_empty(none);
            p.sums_empty(p.worth(none));
            sums::lemma_over_empty(p.weightless(none), |c: int| 1int);
        }
        let mut index: usize = 0;
        while index < problem.len()
            invariant
                problem.inv(),
                p == problem@,
                p.sums_fit(),
                index <= p.n(),
                none == Seq::new(p.candidates.len(), |c: int| false),
                r == Seq::new(p.candidates.len(), |c: int| c < index),
                cache.matches(p, none, r),
            decreases p.n() - index,
        {
            cache.add_reachable(problem, index, Ghost(none), Ghost(r));
            proof {
                r = r.update(index as int, true);
                assert(r =~= Seq::new(p.candidates.len(), |c: int| c < index + 1));
            }
            index = index + 1;
        }
        proof {
            assert(r =~= p.everything());
        }
        cache
    }

    /// The selection is what the aggregates match.
    pub proof fn matches_selection(self, p: ProblemView, s: Seq<bool>, r: Seq<bool>)
        requires
            self.matches(p, s, r),
        ensures
            self.selection() == s,
    {
    }

    /// Whether the candidate at `index` is selected.
    pub fn is_selected(&self, index: usize) -> (r: bool)
        ensures
            r == (index < self.selection().len() && self.selection()[index as int]),
    {
        self.selected.contains(index)
    }

    /// The value of the selected inputs.
    pub(crate) fn value_sum(
        &self,
        Ghost(p): Ghost<ProblemView>,
        Ghost(s): Ghost<Seq<bool>>,
        Ghost(r): Ghost<Seq<bool>>,
    ) -> (value: u64)
        requires
            self.matches(p, s, r),
        ensures
            value == p.value_of(s),
    {
        self.value_sum
    }

    /// Value and weight of the undecided candidates that are worth selecting.
    pub(crate) fn undecided(
        &self,
        Ghost(p): Ghost<ProblemView>,
        Ghost(s): Ghost<Seq<bool>>,
        Ghost(r): Ghost<Seq<bool>>,
    ) -> (sum: (u64, u64))
        requires
            self.matches(p, s, r),
        ensures
            sum.0 == p.value_of(p.worth(r)),
            sum.1 == p.weight_of(p.worth(r)),
    {
        (self.undecided_value, self.undecided_weight)
    }

    /// Summed weight and fee of every ancestor the selection drags in, each counted once.
    pub(crate) fn ancestors(
        &self,
        Ghost(p): Ghost<ProblemView>,
        Ghost(s): Ghost<Seq<bool>>,
        Ghost(r): Ghost<Seq<bool>>,
    ) -> (sum: (u64, u64))
        requires
            p.wf(),
            p.sums_fit(),
            self.matches(p, s, r),
        ensures
            sum.0 == p.ancestor_weight(s),
            sum.1 == p.ancestor_fee(s),
    {
        self.ancestors.selected(Ghost(p), Ghost(s), Ghost(r))
    }

    /// Summed surplus of the ancestors that undecided candidates could still bring in.
    pub(crate) fn reachable_surplus(
        &self,
        Ghost(p): Ghost<ProblemView>,
        Ghost(s): Ghost<Seq<bool>>,
        Ghost(r): Ghost<Seq<bool>>,
    ) -> (surplus: u64)
        requires
            p.wf(),
            p.sums_fit(),
            self.matches(p, s, r),
        ensures
            surplus == p.reachable_surplus(s, r),
    {
        self.ancestors.reachable_surplus(Ghost(p), Ghost(s), Ghost(r))
    }

    /// Whether some undecided candidate weighs nothing but carries value.
    pub(crate) fn has_weightless(
        &self,
        Ghost(p): Ghost<ProblemView>,
        Ghost(s): Ghost<Seq<bool>>,
        Ghost(r): Ghost<Seq<bool>>,
    ) -> (any: bool)
        requires
            self.matches(p, s, r),
        ensures
            any == exists|c: int|
                0 <= c < r.len() && #[trigger] r[c] && p.candidates[c].weight == 0
                    && p.candidates[c].value > 0,
    {
        proof {
            let w = p.weightless(r);
            let one = |c: int| 1int;
            let g = |c: int| if w[c] { one(c) } else { 0 };
            if sums::over(w, one) > 0 {
                let c = sums::lemma_sum_witness(w.len() as int, g);
                assert(r[c]);
            }
            if exists|c: int|
                0 <= c < r.len() && #[trigger] r[c] && p.candidates[c].weight == 0
                    && p.candidates[c].value > 0 {
                let c = choose|c: int|
                    0 <= c < r.len() && #[trigger] r[c] && p.candidates[c].weight == 0
                        && p.candidates[c].value > 0;
                sums::lemma_sum_term(w.len() as int, g, c);
            }
        }
        self.undecided_weightless_value > 0
    }
}

} // verus!
