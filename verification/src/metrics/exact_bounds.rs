//! On which problems without ancestors the bound of the lowest-fee metric is exact.
use crate::bitset;
use crate::bnb::Score;
use crate::bnb_iter;
use crate::candidate::Candidate;
use crate::drain::{Drain, DrainWeights};
use crate::errors::NoBnbSolution;
use crate::feerate;
use crate::feerate::FeeRate;
use crate::metrics::greedy_bound;
use crate::metrics::greedy_bound::Ask;
use crate::metrics::lowest_fee;
use crate::metrics::lowest_fee::LowestFee;
use crate::metrics::lowest_fee_bounds;
use crate::model::SelectionState;
use crate::search;
use crate::sums;
use vstd::prelude::*;

verus! {

/// Whether `weight` is whole vbytes for which `rate` asks whole satoshis.
pub open spec fn is_whole(rate: FeeRate, weight: int) -> bool {
    &&& weight % 4 == 0
    &&& ((weight / 4) * rate@) % 1000 == 0
}

/// The candidates that are selected or undecided.
pub open spec fn most(state: SelectionState) -> Seq<bool> {
    Seq::new(state.selected.len(), |c: int| state.selected[c] || state.undecided(c))
}

/// Whether only legacy inputs are selected or can be added.
pub open spec fn is_all_legacy(state: SelectionState) -> bool {
    state.problem.segwit_of(most(state)) == 0
}

/// Whether every undecided candidate is made of segwit inputs.
pub open spec fn adds_segwit(state: SelectionState) -> bool {
    forall|c: int|
        0 <= c < state.problem.n() && #[trigger] state.undecided(c) ==> {
            &&& state.problem.candidates[c].segwit_count > 0
            &&& state.problem.candidates[c].legacy_count == 0
        }
}

/// Whether inputs that are added take no more framing than the first of them does: there are legacy
/// inputs only, or only segwit inputs can be added, and they are few enough to be counted in one
/// byte.
pub open spec fn is_framed_at_once(state: SelectionState) -> bool {
    let p = state.problem;
    &&& p.segwit_of(most(state)) + p.legacy_of(most(state)) <= 0xfc
    &&& is_all_legacy(state) || adds_segwit(state)
}

/// Whether rounding adds the same to the fees of all selections below: inputs are framed at once,
/// and each undecided candidate takes up whole vbytes and costs whole satoshis at the feerates that
/// are asked for.
pub open spec fn is_plain(state: SelectionState) -> bool {
    let p = state.problem;
    &&& is_framed_at_once(state)
    &&& forall|ask: Ask, c: int|
        #![trigger greedy_bound::asks(p, ask), state.undecided(c)]
        greedy_bound::asks(p, ask) && 0 <= c < p.n() && state.undecided(c) ==> is_whole(
            ask.rate,
            p.candidates[c].weight as int,
        )
}

/// Whether undecided candidates differ in value and weight only, and none that is worth at least as
/// much as another is heavier: for instance because they all weigh the same.
pub open spec fn is_graded(state: SelectionState) -> bool {
    let candidates = state.problem.candidates;
    forall|c: int, d: int|
        #![trigger state.undecided(c), state.undecided(d)]
        0 <= c < state.problem.n() && 0 <= d < state.problem.n() && state.undecided(c)
            && state.undecided(d) ==> {
            &&& candidates[c].weight > 0
            &&& candidates[c].segwit_count == candidates[d].segwit_count
            &&& candidates[c].legacy_count == candidates[d].legacy_count
            &&& candidates[c].value >= candidates[d].value ==> candidates[c].weight
                <= candidates[d].weight
        }
}

/// Whether undecided candidates differ in value only.
pub open spec fn is_uniform(state: SelectionState) -> bool {
    let candidates = state.problem.candidates;
    forall|c: int, d: int|
        #![trigger state.undecided(c), state.undecided(d)]
        0 <= c < state.problem.n() && 0 <= d < state.problem.n() && state.undecided(c)
            && state.undecided(d) ==> {
            &&& candidates[c].weight > 0
            &&& candidates[c].weight == candidates[d].weight
            &&& candidates[c].segwit_count == candidates[d].segwit_count
            &&& candidates[c].legacy_count == candidates[d].legacy_count
        }
}

/// Whether rounding cannot mislead the bound of any node below that does not cover the target:
/// undecided candidates are graded, or rounding adds the same everywhere and something that the
/// target asks leads. No ancestor is dragged in.
pub open spec fn is_exact(state: SelectionState) -> bool {
    &&& !lowest_fee::has_ancestors(state.problem)
    &&& is_graded(state) || is_plain(state) && greedy_bound::is_led(state)
}

/// Candidates that differ in value only cannot mislead the bound, whatever the target asks.
pub proof fn uniform_is_exact(state: SelectionState)
    requires
        is_uniform(state),
        !lowest_fee::has_ancestors(state.problem),
    ensures
        is_exact(state),
{
}

/// Whether everything below a state is below another one of the same problem.
pub open spec fn narrows(root: SelectionState, state: SelectionState) -> bool {
    &&& state.problem == root.problem
    &&& root.extended_by(state.selected)
    &&& forall|c: int|
        0 <= c < state.problem.n() && #[trigger] state.undecided(c) ==> root.undecided(c)
}

/// Every node narrows the root of its tree.
pub proof fn nodes_narrow(root: SelectionState, state: SelectionState)
    requires
        root.reaches(state),
    ensures
        narrows(root, state),
{
}

/// What is framed at once is so further down.
pub proof fn framed_below(root: SelectionState, state: SelectionState)
    requires
        root.wf(),
        state.wf(),
        narrows(root, state),
        is_framed_at_once(root),
    ensures
        is_framed_at_once(state),
        is_plain(root) ==> is_plain(state),
        is_all_legacy(root) ==> is_all_legacy(state),
{
    let p = root.problem;
    assert(bitset::subset(most(state), most(root))) by {
        assert forall|c: int| 0 <= c < most(state).len() && #[trigger] most(state)[c] implies most(
            root,
        )[c] by {
            if !state.selected[c] {
                assert(state.undecided(c));
            }
        }
    }
    p.sums_monotone(most(state), most(root));
}

/// What cannot mislead the bound cannot do so further down.
pub proof fn exact_below(root: SelectionState, state: SelectionState)
    requires
        root.wf(),
        state.wf(),
        narrows(root, state),
        is_exact(root),
    ensures
        is_exact(state),
{
    if is_graded(root) {
        assert(is_graded(state));
    } else {
        framed_below(root, state);
        greedy_bound::leads_on(root, state);
    }
}

/// A sum of whole weights is whole.
proof fn sum_is_whole(rate: FeeRate, n: int, f: spec_fn(int) -> int)
    requires
        forall|i: int| 0 <= i < n ==> is_whole(rate, #[trigger] f(i)),
    ensures
        is_whole(rate, sums::sum(n, f)),
    decreases n,
{
    if n > 0 {
        sum_is_whole(rate, n - 1, f);
        assert(is_whole(rate, f(n - 1)));
        let (a, b, r) = (sums::sum(n - 1, f) / 4, f(n - 1) / 4, rate@ as int);
        assert((a + b) * r == a * r + b * r) by (nonlinear_arith);
        assert(sums::sum(n, f) / 4 == a + b);
    } else {
        assert(0 * rate@ == 0) by (nonlinear_arith);
    }
}

/// Adding a whole weight adds its fee, without rounding.
pub proof fn whole_step(rate: FeeRate, weight: int, more: int)
    requires
        is_whole(rate, more),
    ensures
        4000 * rate.fee(weight + more) == 4000 * rate.fee(weight) + rate@ * more,
        greedy_bound::rounded_by(rate, weight + more) == greedy_bound::rounded_by(rate, weight),
{
    let (v, m, r) = (feerate::ceil(weight, 4), more / 4, rate@ as int);
    assert(feerate::ceil(weight + more, 4) == v + m);
    assert((v + m) * r == v * r + m * r) by (nonlinear_arith);
    assert(4 * (m * r) == r * more) by (nonlinear_arith)
        requires
            more == 4 * m,
    ;
    assert(r * (weight + more) == r * weight + r * more) by (nonlinear_arith);
}

/// What is added where rounding is the same everywhere is whole.
pub proof fn added_is_whole(state: SelectionState, t: Seq<bool>, ask: Ask)
    requires
        state.wf(),
        is_plain(state),
        state.extended_by(t),
        greedy_bound::asks(state.problem, ask),
    ensures
        is_whole(ask.rate, state.problem.weight_of(t) - state.problem.weight_of(state.selected)),
{
    let p = state.problem;
    let s = state.selected;
    let added = Seq::new(t.len(), |c: int| t[c] && !s[c]);
    let weight_at = |c: int| p.candidates[c].weight as int;
    sums::lemma_over_split(t, s, added, weight_at);
    let f = |c: int| if added[c] { weight_at(c) } else { 0 };
    assert forall|c: int| 0 <= c < t.len() implies is_whole(ask.rate, #[trigger] f(c)) by {
        assert(0 * ask.rate@ == 0) by (nonlinear_arith);
        if added[c] {
            assert(state.undecided(c));
        }
    }
    sum_is_whole(ask.rate, t.len() as int, f);
}

/// How inputs that are framed at once are framed: legacy inputs take no more than their count, and
/// the first segwit input adds all framing.
pub proof fn framing_is_added_at_once(state: SelectionState, t: Seq<bool>)
    requires
        state.wf(),
        is_framed_at_once(state),
        state.extended_by(t),
    ensures
        ({
            let p = state.problem;
            &&& is_all_legacy(state) ==> greedy_bound::overhead(p, t) == 4
            &&& !is_all_legacy(state) ==> {
                &&& greedy_bound::overhead(p, t) == 4 + if p.segwit_of(t) > 0 {
                    2 + p.legacy_of(state.selected)
                } else {
                    0
                }
                &&& t != state.selected ==> p.segwit_of(t) > 0
                &&& p.segwit_of(state.selected) <= p.segwit_of(t)
            }
        }),
{
    let p = state.problem;
    let s = state.selected;
    let added = Seq::new(t.len(), |c: int| t[c] && !s[c]);
    let segwit_at = |c: int| p.candidates[c].segwit_count as int;
    let legacy_at = |c: int| p.candidates[c].legacy_count as int;
    sums::lemma_over_split(t, s, added, segwit_at);
    sums::lemma_over_split(t, s, added, legacy_at);
    assert(bitset::subset(t, most(state))) by {
        assert forall|c: int| 0 <= c < t.len() && #[trigger] t[c] implies most(state)[c] by {}
    }
    p.sums_monotone(t, most(state));
    p.sums_monotone(s, t);
    if !is_all_legacy(state) {
        let g = |c: int| if added[c] { legacy_at(c) } else { 0 };
        assert forall|c: int| 0 <= c < t.len() implies #[trigger] g(c) == 0 by {
            if added[c] {
                assert(state.undecided(c));
            }
        }
        sums::lemma_sum_zero(t.len() as int, g);
        if t != s {
            if forall|c: int| 0 <= c < t.len() ==> t[c] == s[c] {
                assert(t =~= s);
            }
            let c = choose|c: int| 0 <= c < t.len() && t[c] != s[c];
            assert(added[c] && state.undecided(c));
            let h = |c: int| if added[c] { segwit_at(c) } else { 0 };
            assert forall|c: int| 0 <= c < t.len() implies #[trigger] h(c) >= 0 by {}
            sums::lemma_sum_nonneg(t.len() as int, h);
            sums::lemma_sum_term(t.len() as int, h, c);
        }
    }
}

/// Where rounding is the same everywhere, it adds no more while candidates are taken than to any
/// selection that covers the target.
proof fn plain_rounds_no_more(state: SelectionState, t: Seq<bool>)
    requires
        state.wf(),
        is_plain(state),
        state.extended_by(t),
        state.problem.funded(t, Drain::spec_none()),
        !state.problem.funded(state.selected, Drain::spec_none()),
    ensures
        greedy_bound::rounds_no_more(state, t),
{
    let p = state.problem;
    let none = DrainWeights::spec_none();
    assert forall|ask: Ask, k: int|
        #![trigger greedy_bound::asks(p, ask), state.taking(k)]
        greedy_bound::asks(p, ask) && 0 <= k <= state.unselected().len() implies {
        let s = state.taking(k).selected;
        let saved = greedy_bound::overhead(p, t) - greedy_bound::overhead(p, s);
        &&& 0 <= saved
        &&& greedy_bound::rounded_by(ask.rate, p.tx_weight(s, none)) <= greedy_bound::rounded_by(
            ask.rate,
            p.tx_weight(t, none),
        ) + ask.rate@ * saved
    } by {
        let s = state.taking(k).selected;
        taking_extends(state, k);
        added_is_whole(state, s, ask);
        added_is_whole(state, t, ask);
        framing_is_added_at_once(state, s);
        framing_is_added_at_once(state, t);
        let start = greedy_bound::frame(p, t) + p.weight_of(state.selected);
        let saved = greedy_bound::overhead(p, t) - greedy_bound::overhead(p, s);
        let lighter = p.tx_weight(s, none);
        p.selection_bounded(state.selected);
        whole_step(ask.rate, start, p.weight_of(t) - p.weight_of(state.selected));
        whole_step(ask.rate, start, p.weight_of(s) - p.weight_of(state.selected));
        assert(lighter + saved == start + (p.weight_of(s) - p.weight_of(state.selected)));
        ask.rate.fee_monotone(lighter, lighter + saved);
        assert(ask.rate@ * (lighter + saved) == ask.rate@ * lighter + ask.rate@ * saved)
            by (nonlinear_arith);
    }
}

/// Taking candidates extends a selection by as many.
proof fn taking_extends(state: SelectionState, k: int)
    requires
        state.wf(),
        0 <= k <= state.unselected().len(),
    ensures
        state.extended_by(state.taking(k).selected),
        bitset::size(state.taking(k).selected) == bitset::size(state.selected) + k,
    decreases k,
{
    let u = state.unselected();
    state.unselected_lists();
    if k == 0 {
        state.taking_none();
    } else {
        taking_extends(state, k - 1);
        state.taking_next(k - 1);
        let s = state.taking(k - 1).selected;
        let c = u[k - 1] as int;
        assert(state.undecided(c));
        assert(!s[c]) by {
            let before = u.take(k - 1);
            if before.contains(c as usize) {
                let i = choose|i: int| 0 <= i < before.len() && before[i] == c as usize;
                assert(u[i] != u[k - 1]);
            }
        }
        bitset::size_insert(s, c);
    }
}

/// Graded candidates that come by descending value per weight unit come by descending value and
/// ascending weight.
proof fn graded_order(state: SelectionState, i: int, j: int)
    requires
        state.wf(),
        is_graded(state),
        greedy_bound::by_density(state),
        0 <= i <= j < state.unselected().len(),
    ensures
        ({
            let candidates = state.problem.candidates;
            let u = state.unselected();
            &&& candidates[u[i] as int].value >= candidates[u[j] as int].value
            &&& candidates[u[i] as int].weight <= candidates[u[j] as int].weight
        }),
{
    let u = state.unselected();
    state.unselected_lists();
    assert(state.undecided(u[i] as int) && state.undecided(u[j] as int));
    let (c, d) = (state.problem.candidates[u[i] as int], state.problem.candidates[u[j] as int]);
    if i < j && c.value < d.value {
        assert(!Candidate::denser(d, c));
        let (v, w, x, y) = (c.value as int, c.weight as int, d.value as int, d.weight as int);
        assert(x * w > v * y) by (nonlinear_arith)
            requires
                0 <= v < x,
                0 < y <= w,
        ;
    }
}

/// As many graded candidates as a selection adds, taken by density, are worth no less and weigh no
/// more: so they cover the target where it does.
proof fn graded_completes(state: SelectionState, t: Seq<bool>)
    requires
        state.wf(),
        is_graded(state),
        greedy_bound::by_density(state),
        state.extended_by(t),
        !lowest_fee::has_ancestors(state.problem),
        state.problem.funded(t, Drain::spec_none()),
        !state.problem.funded(state.selected, Drain::spec_none()),
    ensures
        greedy_bound::completed_by(state, t),
{
    let p = state.problem;
    let none = DrainWeights::spec_none();
    let u = state.unselected();
    let n = u.len() as int;
    state.unselected_lists();
    bitset::size_bounded(state.selected, t);
    taking_extends(state, n);
    assert(bitset::subset(t, state.taking(n).selected)) by {
        assert(u.take(n) =~= u);
        assert forall|c: int| 0 <= c < t.len() && #[trigger] t[c] implies state.taking(n).selected[c] by {
            if !state.selected[c] {
                assert(state.undecided(c));
            }
        }
    }
    bitset::size_bounded(t, state.taking(n).selected);
    let k = bitset::size(t) - bitset::size(state.selected);
    assert(k >= 1) by {
        if k == 0 {
            same_size_is_same(state.selected, t);
        }
    }
    taking_extends(state, k);
    let s = state.taking(k).selected;
    let last = p.candidates[u[k - 1] as int];
    assert(state.undecided(u[k - 1] as int));
    assert forall|i: int| 0 <= i < n implies {
        let c = p.candidates[#[trigger] u[i] as int];
        &&& i < k ==> c.value >= last.value && c.weight <= last.weight
        &&& k <= i ==> c.value <= last.value && c.weight >= last.weight
        &&& c.segwit_count == last.segwit_count
        &&& c.legacy_count == last.legacy_count
    } by {
        assert(state.undecided(u[i] as int));
        if i < k {
            graded_order(state, i, k - 1);
        } else {
            graded_order(state, k - 1, i);
        }
    }
    at_least(state, t, k, |c: int| p.candidates[c].value as int, last.value as int, 1);
    at_least(state, t, k, |c: int| p.candidates[c].weight as int, last.weight as int, -1);
    let (segwit, legacy) = (last.segwit_count as int, last.legacy_count as int);
    at_least(state, t, k, |c: int| p.candidates[c].segwit_count as int, segwit, 1);
    at_least(state, t, k, |c: int| p.candidates[c].segwit_count as int, segwit, -1);
    at_least(state, t, k, |c: int| p.candidates[c].legacy_count as int, legacy, 1);
    at_least(state, t, k, |c: int| p.candidates[c].legacy_count as int, legacy, -1);
    let (weight, heavier) = (p.tx_weight(s, none), p.tx_weight(t, none));
    assert(weight <= heavier);
    greedy_bound::most_is_owed(p, s);
    greedy_bound::most_is_owed(p, t);
    assert(p.fee_owed(s, none) <= p.fee_owed(t, none)) by {
        if p.fee_owed(s, none) != p.target.fee.absolute {
            let ask = choose|ask: Ask| #[trigger]
                greedy_bound::asks(p, ask) && ask.owed(weight) == p.fee_owed(s, none);
            ask.rate.fee_monotone(weight, heavier);
        }
    }
    assert(p.funded(state.taking(k).selected, Drain::spec_none()));
}

/// A set within another one of the same size is that one.
proof fn same_size_is_same(s: Seq<bool>, t: Seq<bool>)
    requires
        bitset::subset(s, t),
        bitset::size(s) == bitset::size(t),
    ensures
        s == t,
{
    if exists|c: int| 0 <= c < t.len() && t[c] != s[c] {
        let c = choose|c: int| 0 <= c < t.len() && t[c] != s[c];
        bitset::size_insert(s, c);
        bitset::size_bounded(s.update(c, true), t);
    }
    assert(s =~= t);
}

/// What `k` candidates that are taken sum up to, where `sign` times their amounts are no less than
/// those of the others: `sign` times that is no less than what a selection of the same size sums up
/// to.
proof fn at_least(
    state: SelectionState,
    t: Seq<bool>,
    k: int,
    amount: spec_fn(int) -> int,
    last: int,
    sign: int,
)
    requires
        state.wf(),
        state.extended_by(t),
        0 <= k <= state.unselected().len(),
        bitset::size(t) == bitset::size(state.taking(k).selected),
        sign == 1 || sign == -1,
        forall|i: int|
            0 <= i < k ==> sign * amount(#[trigger] state.unselected()[i] as int) >= sign * last,
        forall|i: int|
            k <= i < state.unselected().len() ==> sign * amount(
                #[trigger] state.unselected()[i] as int,
            ) <= sign * last,
    ensures
        sign * sums::over(t, amount) <= sign * sums::over(state.taking(k).selected, amount),
{
    let s = state.taking(k).selected;
    let one = |c: int| 1int;
    let h = |c: int| sign * amount(c) + (-sign * last) * one(c);
    assert(-sign * last == -(sign * last)) by (nonlinear_arith);
    greedy_bound::taking_sums_most(state, t, k, h);
    sums::lemma_over_linear(t, amount, one, h, sign, -sign * last);
    sums::lemma_over_linear(s, amount, one, h, sign, -sign * last);
    size_is_over(t);
    size_is_over(s);
}

proof fn size_is_over(s: Seq<bool>)
    ensures
        bitset::size(s) == sums::over(s, |c: int| 1int),
{
    sums::lemma_sum_ext(
        s.len() as int,
        |i: int| if s[i] { 1int } else { 0 },
        |i: int| if s[i] { (|c: int| 1int)(i) } else { 0 },
    );
}

impl LowestFee {
    /// Where rounding cannot mislead it and candidates are ordered by descending value per weight
    /// unit, the bound of every node that does not cover the target is trusted, and of every other
    /// one if what is owed grows with weight and change pays for its weight in spite of rounding.
    pub proof fn trusted_where_exact(self, root: SelectionState, s: SelectionState, t: Seq<bool>)
        requires
            root.wf(),
            self.accepts(root.problem),
            is_exact(root),
            lowest_fee_bounds::is_ordered(root),
            root.reaches(s),
            s.extended_by(t),
            self.score_of(root.problem, t) is Some,
            !root.problem.funded(s.selected, Drain::spec_none()) || {
                &&& lowest_fee_bounds::grows_with_weight(root.problem)
                &&& self.change_pays(root)
            },
        ensures
            self.is_trusted(s, t),
    {
        let p = root.problem;
        lowest_fee_bounds::ordered_means_by_density(root, s);
        nodes_narrow(root, s);
        exact_below(root, s);
        self.score_is_a_fee(p, t);
        if p.funded(s.selected, Drain::spec_none()) {
            lowest_fee_bounds::grows(p, s.selected);
        } else if is_graded(s) {
            graded_completes(s, t);
        } else {
            plain_rounds_no_more(s, t);
        }
    }

    /// Where rounding cannot mislead it, candidates are ordered by descending value per weight
    /// unit, what is owed grows with weight and change pays for its weight in spite of rounding,
    /// the bound is admissible.
    pub proof fn admissible_where_exact(self, root: SelectionState)
        requires
            root.wf(),
            self.accepts(root.problem),
            is_exact(root),
            lowest_fee_bounds::is_ordered(root),
            lowest_fee_bounds::grows_with_weight(root.problem),
            self.change_pays(root),
        ensures
            self.metric_model().admissible(root),
    {
        assert forall|s: SelectionState, t: Seq<bool>|
            #![trigger s.extended_by(t)]
            root.reaches(s) && s.extended_by(t) && self.score_of(root.problem, t) is Some implies self.is_trusted(
            s,
            t,
        ) by {
            self.trusted_where_exact(root, s, t);
        }
        self.trusted_means_admissible(root);
    }

    /// Branch and bound with enough rounds finds the lowest long-term fee, or that no selection is
    /// valid, where what is owed grows with weight and change pays for its weight in spite of
    /// rounding: wherever ancestors are involved, and where rounding cannot mislead the bound.
    pub proof fn search_finds_the_lowest_fee(
        self,
        before: SelectionState,
        root: SelectionState,
        deduplicate: bool,
        max_rounds: usize,
        after: SelectionState,
        r: Result<(Score, Drain), NoBnbSolution>,
        t: Seq<bool>,
    )
        requires
            before.wf(),
            self.accepts(before.problem),
            lowest_fee::has_ancestors(before.problem) || is_exact(before),
            lowest_fee_bounds::grows_with_weight(before.problem),
            self.change_pays(before),
            bnb_iter::searched_from(before, root, true),
            bnb_iter::bnb_outcome(
                self.metric_model(),
                before,
                root,
                deduplicate,
                max_rounds,
                after,
                r,
            ),
            max_rounds >= search::tree_size(before),
            before.extended_by(t),
        ensures
            match r {
                Ok((score, _)) => self.score_of(before.problem, t) matches Some(other) ==> score
                    <= other,
                Err(_) => self.score_of(before.problem, t) is None,
            },
    {
        assert(self.change_pays(root)) by {
            assert forall|c: int| 0 <= c < root.problem.n() && #[trigger] root.undecided(c) implies before.undecided(
                c,
            ) by {}
        }
        if lowest_fee::has_ancestors(before.problem) {
            self.admissible_with_ancestors(root);
        } else {
            lowest_fee_bounds::sorted_search_is_ordered(before, root);
            exact_below(before, root);
            self.admissible_where_exact(root);
        }
        self.score_is_symmetric(before.problem);
    }
}

} // verus!
