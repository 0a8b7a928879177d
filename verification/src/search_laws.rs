//! What branch and bound returns, and why it finds nothing.
use crate::bitset;
use crate::bnb;
use crate::bnb::{BnbMetric, MetricModel, Score};
use crate::bnb_iter;
use crate::bnb_iter::BnbIter;
use crate::candidate::Candidate;
use crate::coin_selector::CoinSelector;
use crate::drain::Drain;
use crate::errors::NoBnbSolution;
use crate::metrics::changeless;
use crate::metrics::changeless_bounds;
use crate::metrics::exact_bounds;
use crate::metrics::lowest_fee;
use crate::metrics::lowest_fee::LowestFee;
use crate::metrics::lowest_fee_bounds;
use crate::metrics::lowest_fee_changeless::LowestFeeChangeless;
use crate::model;
use crate::model::{ProblemView, SelectionState};
use crate::search;
use crate::search::{Progress, Search};
use crate::selection_view::SelectionView;
use crate::sort;
use vstd::prelude::*;

verus! {

/// Whether a number of rounds goes through every selection that extends `state`: twice as many as
/// there are ways to decide on each candidate that is left, but one.
pub open spec fn suffices(state: SelectionState, rounds: int) -> bool {
    let left = Seq::new(state.selected.len(), |c: int| !state.selected[c] && !state.banned[c]);
    rounds + 1 >= vstd::arithmetic::power2::pow2((bitset::size(left) + 1) as nat)
}

/// A search has as many nodes as candidates can be decided on one by one.
pub proof fn trees_double_with_each_candidate(state: SelectionState, rounds: int)
    requires
        state.wf(),
    ensures
        rounds >= search::tree_size(state) <==> suffices(state, rounds),
{
    let left = Seq::new(state.selected.len(), |c: int| !state.selected[c] && !state.banned[c]);
    assert(state.reachable() =~= left);
}

/// What branch and bound finds is a selection that keeps what was selected and adds nothing that
/// was banned, with the score and the change that the metric gives it. Where it finds none, the
/// selection stays as it was: rounds ran out, which they do not where they suffice for all
/// selections; or the target is not covered, not even with every candidate that pays for itself; or
/// it is, and what covers it is too heavy.
pub proof fn runs_return_what_they_found<'a, 'b, M: BnbMetric>(
    cs: &'b mut CoinSelector<'a>,
    metric: M,
    max_rounds: usize,
    r: Result<(Score, Drain), NoBnbSolution>,
    all: Seq<bool>,
    c: int,
)
    requires
        old(cs).inv(),
        call_ensures(CoinSelector::<'a>::run_bnb::<M>, (cs, metric, max_rounds), r),
        0 <= c < old(cs)@.problem.n(),
        all.len() == old(cs)@.problem.n(),
        forall|c: int|
            0 <= c < all.len() ==> (#[trigger] all[c] <==> old(cs)@.selected[c] || (!old(
                cs,
            )@.banned[c] && old(cs)@.problem.candidates[c].value * 4000 > old(
                cs,
            )@.problem.candidates[c].weight * old(cs)@.problem.target.fee.rate@)),
    ensures
        final(cs)@.problem == old(cs)@.problem,
        r matches Ok((score, drain)) ==> {
            &&& (metric.model().score)(old(cs)@.problem, final(cs)@.selected) == Some(score)
            &&& drain == (metric.model().drain)(old(cs)@.problem, final(cs)@.selected)
            &&& old(cs)@.selected[c] ==> final(cs)@.selected[c]
            &&& final(cs)@.selected[c] && !old(cs)@.selected[c] ==> !old(cs)@.banned[c]
        },
        r matches Err(e) ==> final(cs)@ == old(cs)@ && {
            let p = old(cs)@.problem;
            let covered = p.funded(old(cs)@.selected, Drain::spec_none()) || p.funded(
                all,
                Drain::spec_none(),
            );
            match e {
                NoBnbSolution::RoundLimit { max_rounds: limit, rounds } => {
                    &&& limit == max_rounds
                    &&& rounds == max_rounds
                    &&& !suffices(old(cs)@, max_rounds as int)
                },
                NoBnbSolution::InsufficientFunds => !covered,
                NoBnbSolution::MaxWeightExceeded => covered,
            }
        },
{
    let before = old(cs)@;
    let after = final(cs)@;
    old(cs).inv_wf();
    before.fundable_with_all_that_pays(all);
    trees_double_with_each_candidate(before, max_rounds as int);
    let (root, sorted, deduplicate) = choose|root: SelectionState, sorted: bool, deduplicate: bool|
        {
            &&& #[trigger] bnb_iter::searched_from(before, root, sorted)
            &&& call_ensures(M::requires_ordering_by_descending_value_pwu, (&metric,), sorted)
            &&& call_ensures(M::deduplicate_equivalent_candidates, (&metric,), deduplicate)
            &&& #[trigger] bnb_iter::bnb_outcome(
                metric.model(),
                before,
                root,
                deduplicate,
                max_rounds,
                after,
                r,
            )
        };
    assert(bnb_iter::bnb_outcome(
        metric.model(),
        before,
        root,
        deduplicate,
        max_rounds,
        after,
        r,
    ));
    if r is Ok {
        assert(root.reaches(after));
        assert(root.extended_by(after.selected));
    }
}

/// With enough rounds, branch and bound finds the lowest long-term fee: no selection that keeps
/// what is selected and adds nothing that is banned scores less, and none is valid where it finds
/// none. Its change is what that selection drains.
pub proof fn runs_find_the_lowest_fee<'a, 'b>(
    cs: &'b mut CoinSelector<'a>,
    metric: LowestFee,
    max_rounds: usize,
    r: Result<(Score, Drain), NoBnbSolution>,
    t: Seq<bool>,
)
    requires
        old(cs).inv(),
        metric.accepts(old(cs)@.problem),
        call_ensures(CoinSelector::<'a>::run_bnb::<LowestFee>, (cs, metric, max_rounds), r),
        suffices(old(cs)@, max_rounds as int),
        lowest_fee::has_ancestors(old(cs)@.problem) || exact_bounds::is_exact(old(cs)@),
        lowest_fee_bounds::grows_with_weight(old(cs)@.problem),
        metric.change_pays(old(cs)@),
        t.len() == old(cs)@.problem.n(),
        forall|c: int|
            0 <= c < t.len() ==> (old(cs)@.selected[c] ==> #[trigger] t[c]) && (t[c] && !old(
                cs,
            )@.selected[c] ==> !old(cs)@.banned[c]),
    ensures
        metric.score_of(old(cs)@.problem, t) matches Some(other) ==> {
            &&& r matches Ok((score, drain))
            &&& score <= other
            &&& Some(score) == metric.score_of(old(cs)@.problem, final(cs)@.selected)
            &&& drain == metric.drain_of(old(cs)@.problem, final(cs)@.selected)
        },
{
    let before = old(cs)@;
    let after = final(cs)@;
    old(cs).inv_wf();
    trees_double_with_each_candidate(before, max_rounds as int);
    before.extending_keeps_and_spares(t);
    let (root, sorted, deduplicate) = choose|root: SelectionState, sorted: bool, deduplicate: bool|
        {
            &&& #[trigger] bnb_iter::searched_from(before, root, sorted)
            &&& call_ensures(
                LowestFee::requires_ordering_by_descending_value_pwu,
                (&metric,),
                sorted,
            )
            &&& call_ensures(
                LowestFee::deduplicate_equivalent_candidates,
                (&metric,),
                deduplicate,
            )
            &&& #[trigger] bnb_iter::bnb_outcome(
                metric.model(),
                before,
                root,
                deduplicate,
                max_rounds,
                after,
                r,
            )
        };
    metric.search_finds_the_lowest_fee(before, root, deduplicate, max_rounds, after, r, t);
}

/// The same of the lowest fee without change.
pub proof fn runs_find_the_lowest_changeless_fee<'a, 'b>(
    cs: &'b mut CoinSelector<'a>,
    metric: LowestFeeChangeless,
    max_rounds: usize,
    r: Result<(Score, Drain), NoBnbSolution>,
    t: Seq<bool>,
)
    requires
        old(cs).inv(),
        metric.accepts(old(cs)@.problem),
        call_ensures(
            CoinSelector::<'a>::run_bnb::<LowestFeeChangeless>,
            (cs, metric, max_rounds),
            r,
        ),
        suffices(old(cs)@, max_rounds as int),
        lowest_fee::has_ancestors(old(cs)@.problem) || (exact_bounds::is_exact(old(cs)@)
            && changeless_bounds::is_firm(old(cs)@)),
        t.len() == old(cs)@.problem.n(),
        forall|c: int|
            0 <= c < t.len() ==> (old(cs)@.selected[c] ==> #[trigger] t[c]) && (t[c] && !old(
                cs,
            )@.selected[c] ==> !old(cs)@.banned[c]),
    ensures
        metric.score_of(old(cs)@.problem, t) matches Some(other) ==> {
            &&& r matches Ok((score, drain))
            &&& score <= other
            &&& Some(score) == metric.score_of(old(cs)@.problem, final(cs)@.selected)
            &&& drain == Drain::spec_none()
        },
{
    let before = old(cs)@;
    let after = final(cs)@;
    old(cs).inv_wf();
    trees_double_with_each_candidate(before, max_rounds as int);
    before.extending_keeps_and_spares(t);
    let (root, sorted, deduplicate) = choose|root: SelectionState, sorted: bool, deduplicate: bool|
        {
            &&& #[trigger] bnb_iter::searched_from(before, root, sorted)
            &&& call_ensures(
                LowestFeeChangeless::requires_ordering_by_descending_value_pwu,
                (&metric,),
                sorted,
            )
            &&& call_ensures(
                LowestFeeChangeless::deduplicate_equivalent_candidates,
                (&metric,),
                deduplicate,
            )
            &&& #[trigger] bnb_iter::bnb_outcome(
                metric.model(),
                before,
                root,
                deduplicate,
                max_rounds,
                after,
                r,
            )
        };
    metric.search_finds_the_lowest_fee(before, root, deduplicate, max_rounds, after, r, t);
}

/// Each round that yields a selection yields one that scores less than all before it, and one that
/// is reached from the root by deciding on candidates that are left.
pub proof fn rounds_improve<'a, 'b, M: BnbMetric>(
    iter: &'b mut BnbIter<'a, M>,
    r: Option<Option<(CoinSelector<'a>, Score)>>,
    c: int,
)
    requires
        old(iter).inv(),
        call_ensures(BnbIter::<'a, M>::next, (iter,), r),
        0 <= c < old(iter).root().problem.n(),
        old(iter).root().wf(),
    ensures
        r is None <==> old(iter).is_exhausted(),
        final(iter).root() == old(iter).root(),
        r matches Some(Some((cs, score))) ==> {
            &&& old(iter).best_score() matches Some(best) ==> score < best
            &&& final(iter).best_score() == Some(score)
            &&& (old(iter).search().model.score)(old(iter).root().problem, cs@.selected) == Some(score)
            &&& old(iter).root().selected[c] ==> cs@.selected[c]
            &&& cs@.selected[c] && !old(iter).root().selected[c] ==> !old(iter).root().banned[c]
        },
        r matches Some(None) ==> final(iter).best_score() == old(iter).best_score(),
{
    if let Some(Some((cs, score))) = r {
        assert(old(iter).root().extended_by(cs@.selected));
    }
}

/// A bound is worth following if there is one, and nothing as good has been found.
pub proof fn promising_bounds_could_be_better(bound: Option<Score>, best: Option<Score>)
    ensures
        bnb::promising(bound, best) <==> bound is Some && (best is Some ==> bound->0 < best->0),
{
}

/// Leaving out a candidate leaves out those that look just like it, as far as they follow, where
/// that is asked for, and no other.
pub proof fn look_alikes_are_left_out_together(
    state: SelectionState,
    index: usize,
    cursor: int,
    deduplicate: bool,
    c: usize,
)
    requires
        state.wf(),
        0 <= cursor < state.problem.n(),
        state.order[cursor] == index,
        state.undecided(index as int),
    ensures
        state.exclusion(index, cursor, deduplicate).0.contains(index),
        !deduplicate ==> (state.exclusion(index, cursor, deduplicate).0.contains(c) <==> c == index),
        state.exclusion(index, cursor, deduplicate).0.contains(c) ==> {
            &&& c < state.problem.n()
            &&& !state.selected[c as int] && !state.banned[c as int]
            &&& state.problem.candidates[c as int] == state.problem.candidates[index as int]
            &&& state.problem.drags[c as int] == state.problem.drags[index as int]
        },
{
    assert(seq![index].contains(seq![index][0]));
    if deduplicate {
        alike_from_is_alike(state, index, cursor + 1, seq![index], c);
        alike_from_keeps(state, index, cursor + 1, seq![index], index);
    }
}

proof fn alike_from_keeps(state: SelectionState, index: usize, j: int, found: Seq<usize>, c: usize)
    requires
        found.contains(c),
    ensures
        state.alike_from(index, j, found).0.contains(c),
    decreases state.problem.n() - j,
{
    if j < state.problem.n() {
        if !state.undecided(state.order[j] as int) {
            alike_from_keeps(state, index, j + 1, found, c);
        } else if bnb::look_alike(state.problem, index as int, state.order[j] as int) {
            let more = found.push(state.order[j]);
            let k = choose|k: int| 0 <= k < found.len() && found[k] == c;
            assert(more[k] == c);
            alike_from_keeps(state, index, j + 1, more, c);
        }
    }
}

proof fn alike_from_is_alike(
    state: SelectionState,
    index: usize,
    j: int,
    found: Seq<usize>,
    c: usize,
)
    requires
        state.wf(),
        0 <= j,
        forall|k: int|
            0 <= k < found.len() ==> #[trigger] found[k] < state.problem.n() && state.undecided(
                found[k] as int,
            ) && bnb::look_alike(state.problem, index as int, found[k] as int),
    ensures
        state.alike_from(index, j, found).0.contains(c) ==> c < state.problem.n() && state.undecided(
            c as int,
        ) && bnb::look_alike(state.problem, index as int, c as int),
    decreases state.problem.n() - j,
{
    if j < state.problem.n() {
        assert(state.order[j] < state.problem.n());
        if !state.undecided(state.order[j] as int) {
            alike_from_is_alike(state, index, j + 1, found, c);
        } else if bnb::look_alike(state.problem, index as int, state.order[j] as int) {
            alike_from_is_alike(state, index, j + 1, found.push(state.order[j]), c);
        }
    }
}

/// A search by value per weight unit takes the same candidates, the dense ones first.
pub proof fn sorted_searches_take_the_dense_first(
    state: SelectionState,
    root: SelectionState,
    i: int,
    j: int,
)
    requires
        bnb_iter::searched_from(state, root, true),
        0 <= i < j < root.order.len(),
    ensures
        root.selected == state.selected && root.banned == state.banned && root.problem
            == state.problem,
        model::is_order(root.order, state.problem.n()),
        ({
            let a = root.problem.candidates[root.order[i] as int];
            let b = root.problem.candidates[root.order[j] as int];
            &&& a.weight > 0 && b.weight > 0 ==> a.value * b.weight >= b.value * a.weight
            &&& a.weight > 0 ==> b.weight > 0
        }),
{
    lowest_fee_bounds::sorted_search_is_ordered(state, root);
}

/// A metric that shuns change scores as the one that it is made from does, where that makes no
/// change, and makes none itself.
pub proof fn shunning_change_keeps_other_scores(inner: MetricModel, p: ProblemView, s: Seq<bool>)
    ensures
        (changeless::changeless_model(inner).score)(p, s) == (if (inner.drain)(p, s)
            == Drain::spec_none() {
            (inner.score)(p, s)
        } else {
            None
        }),
        (changeless::changeless_model(inner).drain)(p, s) == Drain::spec_none(),
        changeless::changeless_model(inner).bound == inner.bound,
        changeless::changeless_model(inner).accepts == inner.accepts,
{
}

/// The metrics report to the search what they compute.
pub proof fn metrics_report_what_they_compute<'b>(
    metric: &'b mut LowestFee,
    other: &'b mut LowestFee,
    third: &'b mut LowestFee,
    view: &SelectionView<'b>,
    score: Option<Score>,
    bound: Option<Score>,
    drain: Drain,
    value: Option<u64>,
)
    requires
        *old(other) == *old(metric),
        *old(third) == *old(metric),
        call_ensures(LowestFee::score, (metric, view), score),
        call_ensures(LowestFee::bound, (other, view), bound),
        call_ensures(LowestFee::drain, (third, view), drain),
        call_ensures(LowestFee::drain_value, (&*old(metric), view), value),
    ensures
        score == old(metric).score_of(view@.problem, view@.selected),
        bound == old(metric).bound_of(view@),
        drain == old(metric).drain_of(view@.problem, view@.selected),
        value is Some <==> old(metric).change_value(view@.problem, view@.selected) is Some,
        value matches Some(value) ==> old(metric).change_value(view@.problem, view@.selected) == Some(
            value as int,
        ),
{
}

/// The same of the lowest fee without change.
pub proof fn changeless_metrics_report_what_they_compute<'b>(
    metric: &'b mut LowestFeeChangeless,
    other: &'b mut LowestFeeChangeless,
    third: &'b mut LowestFeeChangeless,
    view: &SelectionView<'b>,
    score: Option<Score>,
    bound: Option<Score>,
    drain: Drain,
)
    requires
        *old(other) == *old(metric),
        *old(third) == *old(metric),
        call_ensures(LowestFeeChangeless::score, (metric, view), score),
        call_ensures(LowestFeeChangeless::bound, (other, view), bound),
        call_ensures(LowestFeeChangeless::drain, (third, view), drain),
    ensures
        score == old(metric).score_of(view@.problem, view@.selected),
        bound == old(metric).bound_of(view@),
        drain == Drain::spec_none(),
{
}

/// Sorting by value per weight unit keeps the candidates and what is selected, and puts the dense
/// ones first: weightless ones before all others, of those that hold the same per weight unit the
/// more valuable one, and of those that are alike the one that came first.
pub proof fn sorting_puts_the_dense_first<'a, 'b>(cs: &'b mut CoinSelector<'a>, i: int, j: int)
    requires
        old(cs).inv(),
        final(cs).inv(),
        call_ensures(CoinSelector::<'a>::sort_candidates_by_descending_value_pwu, (cs,), ()),
        0 <= i < j < final(cs)@.order.len(),
    ensures
        final(cs)@.selected == old(cs)@.selected && final(cs)@.banned == old(cs)@.banned && final(cs)@.problem == old(cs)@.problem,
        model::is_order(final(cs)@.order, old(cs)@.problem.n()),
        ({
            let a = old(cs)@.problem.candidates[final(cs)@.order[i] as int];
            let b = old(cs)@.problem.candidates[final(cs)@.order[j] as int];
            &&& a.weight > 0 ==> b.weight > 0
            &&& a.weight > 0 ==> a.value * b.weight >= b.value * a.weight
            &&& a.weight > 0 && a.value * b.weight == b.value * a.weight ==> a.value >= b.value
            &&& a.weight == 0 && b.weight == 0 ==> a.value >= b.value
            &&& a == b ==> exists|x: int, y: int|
                0 <= x < y < old(cs)@.order.len() && #[trigger] old(cs)@.order[x] == final(cs)@.order[i] && #[trigger] old(cs)@.order[y] == final(cs)@.order[j]
        }),
{
    let before = old(cs)@;
    let after = final(cs)@;
    old(cs).inv_wf();
    final(cs).inv_wf();
    let positions = choose|positions: Seq<usize>|
        {
            &&& #[trigger] before.reordered(after, positions)
            &&& sort::in_order(positions, |p: usize, q: usize| before.ranks_before(p, q))
        };
    let a = before.problem.candidates[after.order[i] as int];
    let b = before.problem.candidates[after.order[j] as int];
    let (p, q) = (positions[i], positions[j]);
    assert(after.order[i] == before.order[p as int] && after.order[j] == before.order[q as int]);
    Candidate::ranked_by_value_per_weight(a, b);
    Candidate::ranked_by_value_per_weight(b, a);
    assert(before.ranks_before(p, q) || !before.ranks_before(q, p) && p < q);
    if a == b {
        assert(p < q);
        assert(before.order[p as int] == after.order[i] && before.order[q as int] == after.order[j]);
    }
}

/// Reordering moves each candidate to a place of its own, and changes nothing else.
pub proof fn reordering_moves_candidates(
    state: SelectionState,
    new: SelectionState,
    positions: Seq<usize>,
    k: int,
)
    requires
        state.wf(),
        state.reordered(new, positions),
        0 <= k < state.problem.n(),
    ensures
        new.order.len() == state.order.len(),
        0 <= positions[k] < state.problem.n(),
        new.order[k] == state.order[positions[k] as int],
        forall|j: int|
            0 <= j < state.problem.n() && j != k ==> #[trigger] positions[j] != positions[k],
        new.selected == state.selected && new.banned == state.banned && new.problem == state.problem,
{
    assert forall|j: int|
        0 <= j < state.problem.n() && j != k implies #[trigger] positions[j] != positions[k] by {
        if j < k {
            assert(positions[j] != positions[k]);
        } else {
            assert(positions[k] != positions[j]);
        }
    }
}

impl Search {
    /// Going down decides on the first candidate in order that is left. It is selected first where
    /// the bound on that is promising and no more than the bound on leaving it out, or only that
    /// is; the other way is kept for later where it is promising too.
    pub proof fn going_down_tries_the_better_way_first(self, after: Search)
        requires
            self.descends(after),
        ensures
            ({
                let state = self.current();
                let frame = after.frames.last();
                let with = (self.model.bound)(state.select(frame.index as int));
                let without = (self.model.bound)(
                    state.ban_all(
                        state.exclusion(frame.index, frame.cursor as int, self.deduplicate).0,
                    ),
                );
                let with_ok = with is Some && (self.best is Some ==> with->0 < self.best->0);
                let without_ok = without is Some && (self.best is Some ==> without->0
                    < self.best->0);
                &&& after.frames.len() == self.frames.len() + 1
                &&& after.best == self.best
                &&& state.order[frame.cursor as int] == frame.index
                &&& !state.selected[frame.index as int] && !state.banned[frame.index as int]
                &&& with_ok || without_ok
                &&& with_ok && without_ok ==> frame.sibling_pending && (frame.is_inclusion <==> with->0
                    <= without->0)
                &&& with_ok && !without_ok ==> frame.is_inclusion && !frame.sibling_pending
                &&& !with_ok && without_ok ==> !frame.is_inclusion && !frame.sibling_pending
            }),
    {
    }

    /// Turning back goes to the last decision whose other way is kept and still promising, and
    /// takes that.
    pub proof fn turning_back_takes_the_last_way_kept(self, after: Search, k: int)
        requires
            self.turns(after),
            after.frames.len() <= k < self.frames.len(),
        ensures
            ({
                let last = after.frames.len() - 1;
                let kept = (self.model.bound)(self.sibling(last));
                let later = (self.model.bound)(self.sibling(k));
                &&& self.frames[last].sibling_pending && kept is Some && (self.best is Some ==> kept->0
                    < self.best->0)
                &&& !(self.frames[k].sibling_pending && later is Some && (self.best is Some ==> later->0
                    < self.best->0))
                &&& after.frames[last].is_inclusion != self.frames[last].is_inclusion
                &&& after.frames[last].index == self.frames[last].index
                &&& after.best == self.best
            }),
    {
        assert(!self.can_turn(k));
    }

    /// A selection is found where it scores less than the best so far, and was not found before: so
    /// not where the last decision left a candidate out.
    pub proof fn findings_beat_the_best(self)
        ensures
            ({
                let score = (self.model.score)(self.root.problem, self.current().selected);
                let better = score is Some && (self.best is Some ==> score->0 < self.best->0);
                let seen = self.frames.len() > 0 && !self.frames[self.frames.len() - 1].is_inclusion;
                &&& self.finding() is Some <==> better && !seen
                &&& self.finding() is Some ==> self.finding() == score
            }),
    {
    }
}

/// A search starts at its root with nothing found and nothing decided, and goes on if the root has
/// a bound.
pub proof fn searches_start_at_the_root(
    root: SelectionState,
    model: MetricModel,
    deduplicate: bool,
)
    ensures
        ({
            let start = Progress::start(root, model, deduplicate);
            &&& start.search.root == root
            &&& start.search.model == model
            &&& start.search.deduplicate == deduplicate
            &&& start.search.frames.len() == 0
            &&& start.search.best is None
            &&& start.search.current() == root
            &&& start.live <==> (model.bound)(root) is Some
        }),
{
}

impl Progress {
    /// A round first scores the selection where the search stands. It then goes down, or where
    /// neither way of deciding on the next candidate is promising turns back, or ends where no way
    /// that was kept is promising any more.
    pub proof fn rounds_score_and_move_on(self, after: Progress)
        requires
            self.round(after),
        ensures
            ({
                let found = self.search.finding();
                let best = if found is Some {
                    found
                } else {
                    self.search.best
                };
                let scored = Search { best, ..self.search };
                &&& self.live
                &&& after.search.best == best
                &&& after.search.root == self.search.root
                &&& after.live ==> scored.descends(after.search) || (scored.is_dead_end()
                    && scored.turns(after.search))
                &&& !after.live ==> after.search.frames.len() == 0 && scored.is_dead_end()
                    && forall|k: int|
                    0 <= k < scored.frames.len() && (#[trigger] scored.frames[k]).sibling_pending ==> {
                        let kept = (scored.model.bound)(scored.sibling(k));
                        kept is None || (scored.best is Some && scored.best->0 <= kept->0)
                    }
            }),
    {
        let scored = self.search.scored();
        if !after.live {
            assert forall|k: int|
                0 <= k < scored.frames.len() && (#[trigger] scored.frames[k]).sibling_pending implies ({
                let kept = (scored.model.bound)(scored.sibling(k));
                kept is None || (scored.best is Some && scored.best->0 <= kept->0)
            }) by {
                assert(!scored.can_turn(k));
            }
        }
    }
}

/// Leaving out candidates bans those of the list besides what is banned already, and nothing else.
pub proof fn leaving_out_bans_the_list(state: SelectionState, list: Seq<usize>, c: usize)
    requires
        state.wf(),
        c < state.problem.n(),
    ensures
        state.ban_all(list).banned[c as int] <==> state.banned[c as int] || list.contains(c),
        state.ban_all(list).selected == state.selected,
        state.ban_all(list).order == state.order,
        state.ban_all(list).problem == state.problem,
{
}

/// Where look-alikes are left out together, so is each that follows with none in between that is
/// left and looks different.
pub proof fn following_look_alikes_are_left_out(
    state: SelectionState,
    index: usize,
    cursor: int,
    at: int,
)
    requires
        state.wf(),
        0 <= cursor < at < state.problem.n(),
        !state.selected[state.order[at] as int],
        !state.banned[state.order[at] as int],
        forall|i: int|
            cursor < i <= at && !state.selected[#[trigger] state.order[i] as int]
                && !state.banned[state.order[i] as int] ==> state.problem.candidates[index as int]
                == state.problem.candidates[state.order[i] as int]
                && state.problem.drags[index as int] == state.problem.drags[state.order[i] as int],
    ensures
        state.exclusion(index, cursor, true).0.contains(state.order[at]),
{
    alike_from_finds(state, index, cursor + 1, seq![index], at);
}

proof fn alike_from_finds(state: SelectionState, index: usize, j: int, found: Seq<usize>, at: int)
    requires
        state.wf(),
        0 <= j <= at < state.problem.n(),
        state.undecided(state.order[at] as int),
        forall|i: int|
            j <= i <= at && state.undecided(#[trigger] state.order[i] as int) ==> bnb::look_alike(
                state.problem,
                index as int,
                state.order[i] as int,
            ),
    ensures
        state.alike_from(index, j, found).0.contains(state.order[at]),
    decreases at - j,
{
    let c = state.order[j];
    if j == at {
        let more = found.push(c);
        assert(bnb::look_alike(state.problem, index as int, c as int));
        assert(more[found.len() as int] == c);
        alike_from_keeps(state, index, j + 1, more, c);
    } else if !state.undecided(c as int) {
        alike_from_finds(state, index, j + 1, found, at);
    } else {
        assert(bnb::look_alike(state.problem, index as int, c as int));
        alike_from_finds(state, index, j + 1, found.push(c), at);
    }
}

} // verus!
