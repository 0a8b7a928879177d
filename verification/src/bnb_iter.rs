//! The rounds of branch and bound.
use crate::bnb;
use crate::bnb::{BnbMetric, Frame, Goal, MetricModel, Score};
use crate::coin_selector::CoinSelector;
use crate::drain::Drain;
use crate::errors::NoBnbSolution;
use crate::model;
use crate::model::SelectionState;
use crate::search;
use crate::search::{Progress, Search};
use crate::selection_view::SelectionView;
use vstd::prelude::*;

verus! {

/// Rounds of branch and bound that minimize the score of a [`BnbMetric`].
///
/// The tree is searched depth-first, visiting the child with the better bound first and
/// backtracking in place, so only the current path is held in memory.
pub struct BnbIter<'a, M: BnbMetric> {
    selector: CoinSelector<'a>,
    stack: Vec<Frame>,
    best: Option<Score>,
    exhausted: bool,
    deduplicate: bool,
    metric: M,
    root: Ghost<SelectionState>,
}

impl<'a, M: BnbMetric> BnbIter<'a, M> {
    /// The progress of the search.
    pub closed spec fn search(&self) -> Search {
        Search {
            root: self.root@,
            frames: self.stack@,
            best: self.best,
            model: self.metric.model(),
            deduplicate: self.deduplicate,
        }
    }

    /// How far the search has got.
    pub open spec fn progress(&self) -> Progress {
        Progress { search: self.search(), live: !self.is_exhausted() }
    }

    /// The state that the search started from.
    pub open spec fn root(&self) -> SelectionState {
        self.search().root
    }

    /// The best score so far.
    pub open spec fn best_score(&self) -> Option<Score> {
        self.search().best
    }

    /// Whether the whole tree has been searched.
    pub closed spec fn is_exhausted(&self) -> bool {
        self.exhausted
    }

    /// The number of rounds until the whole tree has been searched, at most.
    pub open spec fn remaining_rounds(&self) -> int {
        if self.is_exhausted() {
            0
        } else {
            self.search().remaining(true)
        }
    }

    /// Whether the selector stands at the current node of the search, and the search is on course.
    pub closed spec fn inv(&self) -> bool {
        &&& self.selector.inv()
        &&& self.selector@ == self.search().current()
        &&& self.search().wf()
        &&& (self.metric.model().accepts)(self.root@.problem)
        &&& self.search().on_course(!self.exhausted)
        &&& self.exhausted ==> self.stack@.len() == 0
    }

    /// Whether this is the search `before` with other decisions and a best score that is as good.
    spec fn continues(&self, before: Search) -> bool {
        &&& self.root@ == before.root
        &&& self.metric.model() == before.model
        &&& self.deduplicate == before.deduplicate
    }

    /// A search for the lowest score below the selection of `selector`. Where the metric requires
    /// it, the candidates are sorted by descending value per weight unit first.
    pub fn new(selector: CoinSelector<'a>, metric: M) -> (r: Self)
        requires
            selector.inv(),
            (metric.model().accepts)(selector@.problem),
        ensures
            r.inv(),
            exists|sorted: bool|
                {
                    &&& #[trigger] searched_from(selector@, r.root(), sorted)
                    &&& call_ensures(
                        M::requires_ordering_by_descending_value_pwu,
                        (&metric,),
                        sorted,
                    )
                },
            call_ensures(
                M::deduplicate_equivalent_candidates,
                (&metric,),
                r.search().deduplicate,
            ),
            r.progress() == Progress::start(r.root(), metric.model(), r.search().deduplicate),
            r.remaining_rounds() <= search::tree_size(selector@),
    {
        let mut selector = selector;
        let ghost before = selector@;
        let sorted: bool = metric.requires_ordering_by_descending_value_pwu();
        if sorted {
            selector.sort_candidates_by_descending_value_pwu();
        }
        let deduplicate: bool = metric.deduplicate_equivalent_candidates();
        let ghost root = selector@;
        let mut iter = BnbIter {
            selector,
            stack: Vec::new(),
            best: None,
            exhausted: false,
            deduplicate,
            metric,
            root: Ghost(root),
        };
        proof {
            iter.selector.inv_wf();
            iter.search().start();
            assert(root.reachable() =~= before.reachable());
            assert(searched_from(before, root, sorted));
        }
        let promising: bool = iter.bound_is_promising();
        if !promising {
            iter.exhausted = true;
            proof {
                search::tree_is_not_empty(before);
            }
        }
        iter
    }

    /// Whether the last decision was to exclude.
    fn is_exclusion_node(&self) -> (r: bool)
        ensures
            r == (self.stack@.len() > 0 && !self.stack@.last().is_inclusion),
    {
        let len: usize = self.stack.len();
        len > 0 && !self.stack[len - 1].is_inclusion
    }

    /// Scores the current selection, and records the score if it is the best one so far.
    fn try_record_best(&mut self) -> (r: Option<Score>)
        requires
            old(self).inv(),
            !old(self).exhausted,
        ensures
            final(self).inv(),
            !final(self).exhausted,
            final(self).continues(old(self).search()),
            final(self).selector == old(self).selector,
            final(self).stack == old(self).stack,
            final(self).search().remaining(true) == old(self).search().remaining(true),
            final(self).search().beats(final(self).search().current().selected),
            match r {
                Some(score) => {
                    &&& old(self).search().score(old(self).selector@.selected) == Some(score)
                    &&& old(self).best is Some ==> score < old(self).best->0
                    &&& final(self).best == Some(score)
                },
                None => {
                    &&& final(self).best == old(self).best
                    &&& old(self).search().beats(old(self).selector@.selected)
                },
            },
    {
        let ghost before = self.search();
        proof {
            before.nodes_reached(before.frames.len() as int);
        }
        let view = SelectionView::from_selector(&self.selector);
        let score: Score = match self.metric.score(&view) {
            Some(score) => score,
            None => {
                return None;
            },
        };
        let better: bool = match self.best {
            Some(best_score) => score < best_score,
            None => true,
        };
        if better {
            proof {
                before.record(true, score);
            }
            self.best = Some(score);
            assert(self.search() == (Search { best: Some(score), ..before }));
            Some(score)
        } else {
            None
        }
    }

    /// Whether a node with this bound can hold a better selection than the best one so far.
    fn is_promising(&self, bound: Option<Score>) -> (r: bool)
        ensures
            r == bnb::promising(bound, self.best),
    {
        match (bound, self.best) {
            (Some(bound), Some(best)) => best > bound,
            (Some(_), None) => true,
            (None, _) => false,
        }
    }

    /// The bound of the selector's state.
    fn current_bound(&mut self) -> (bound: Option<Score>)
        requires
            old(self).selector.inv(),
            (old(self).metric.model().accepts)(old(self).selector@.problem),
        ensures
            bound == (old(self).metric.model().bound)(old(self).selector@),
            final(self).metric.model() == old(self).metric.model(),
            final(self).selector == old(self).selector,
            final(self).stack == old(self).stack,
            final(self).best == old(self).best,
            final(self).exhausted == old(self).exhausted,
            final(self).deduplicate == old(self).deduplicate,
            final(self).root == old(self).root,
    {
        let view = SelectionView::from_selector(&self.selector);
        self.metric.bound(&view)
    }

    /// Whether the selector's state can hold a better selection than the best one so far.
    fn bound_is_promising(&mut self) -> (r: bool)
        requires
            old(self).selector.inv(),
            (old(self).metric.model().accepts)(old(self).selector@.problem),
        ensures
            r == bnb::promising(
                (old(self).metric.model().bound)(old(self).selector@),
                old(self).best,
            ),
            final(self).metric.model() == old(self).metric.model(),
            final(self).selector == old(self).selector,
            final(self).stack == old(self).stack,
            final(self).best == old(self).best,
            final(self).exhausted == old(self).exhausted,
            final(self).deduplicate == old(self).deduplicate,
            final(self).root == old(self).root,
    {
        let bound: Option<Score> = self.current_bound();
        self.is_promising(bound)
    }

    /// The position from which the next undecided candidate is looked for.
    fn cursor(&self) -> (r: usize)
        ensures
            r == (if self.stack@.len() > 0 {
                self.stack@.last().next_cursor
            } else {
                0
            }),
    {
        let len: usize = self.stack.len();
        if len > 0 {
            self.stack[len - 1].next_cursor
        } else {
            0
        }
    }

    /// The candidates to ban when excluding `index`, and the position to resume from.
    ///
    /// Undecided candidates after `index` with the same value, weight, input counts and ancestors
    /// are banned with it, up to the first one that differs.
    fn exclusion_plan(&self, index: usize, cursor: usize) -> (r: (Vec<usize>, usize))
        requires
            self.selector.inv(),
            cursor < self.selector@.problem.n(),
            index < self.selector@.problem.n(),
        ensures
            (r.0@, r.1 as int) == self.selector@.exclusion(index, cursor as int, self.deduplicate),
    {
        let ghost state = self.selector@;
        proof {
            self.selector.inv_wf();
        }
        let mut banned: Vec<usize> = Vec::new();
        banned.push(index);
        assert(banned@ =~= seq![index]);
        let mut next_cursor: usize = cursor + 1;
        if !self.deduplicate {
            return (banned, next_cursor);
        }
        let problem = self.selector.problem();
        let order: &[usize] = self.selector.candidate_order();
        let to_ban = self.selector.candidate(index);
        while next_cursor < order.len()
            invariant
                self.selector.inv(),
                state == self.selector@,
                state.wf(),
                problem.inv(),
                problem@ == state.problem,
                order@ == state.order,
                index < state.problem.n(),
                to_ban == state.problem.candidates[index as int],
                cursor < next_cursor <= state.problem.n(),
                state.alike_from(index, next_cursor as int, banned@) == state.alike_from(
                    index,
                    cursor + 1,
                    seq![index],
                ),
            ensures
                (banned@, next_cursor as int) == state.alike_from(index, cursor + 1, seq![index]),
            decreases state.problem.n() - next_cursor,
        {
            let next_index: usize = order[next_cursor];
            assert(state.order[next_cursor as int] < state.problem.n());
            if !(self.selector.is_selected(next_index) || self.selector.banned().contains(
                next_index,
            )) {
                let alike: bool = self.selector.candidate(next_index) == to_ban
                    && problem.drag_in_the_same(index, next_index);
                if !alike {
                    break;
                }
                banned.push(next_index);
            }
            next_cursor = next_cursor + 1;
        }
        (banned, next_cursor)
    }

    /// Bans the candidates of a plan.
    fn apply_exclude(&mut self, banned: &Vec<usize>)
        requires
            old(self).selector.inv(),
            forall|k: int|
                0 <= k < banned@.len() ==> #[trigger] banned@[k] < old(self).selector@.problem.n(),
        ensures
            final(self).selector.inv(),
            final(self).selector@ == old(self).selector@.ban_all(banned@),
            final(self).metric == old(self).metric,
            final(self).stack == old(self).stack,
            final(self).best == old(self).best,
            final(self).exhausted == old(self).exhausted,
            final(self).deduplicate == old(self).deduplicate,
            final(self).root == old(self).root,
    {
        let ghost before = *self;
        let ghost state = self.selector@;
        let mut k: usize = 0;
        proof {
            assert(state.ban_all(banned@.take(0)) =~= state);
        }
        while k < banned.len()
            invariant
                self.selector.inv(),
                state == before.selector@,
                forall|k: int| 0 <= k < banned@.len() ==> #[trigger] banned@[k] < state.problem.n(),
                k <= banned@.len(),
                self.selector@ == state.ban_all(banned@.take(k as int)),
                self.metric == before.metric,
                self.stack == before.stack,
                self.best == before.best,
                self.exhausted == before.exhausted,
                self.deduplicate == before.deduplicate,
                self.root == before.root,
            decreases banned@.len() - k,
        {
            let index: usize = banned[k];
            proof {
                self.selector.inv_wf();
                let (less, more) = (banned@.take(k as int), banned@.take(k + 1));
                assert(more =~= less.push(index));
                assert forall|c: int| 0 <= c < state.banned.len() implies #[trigger] more.contains(
                    c as usize,
                ) == (less.contains(c as usize) || c == index) by {
                    if less.contains(c as usize) {
                        let j = choose|j: int| 0 <= j < less.len() && less[j] == c as usize;
                        assert(more[j] == c as usize);
                    }
                    if c == index {
                        assert(more[k as int] == c as usize);
                    }
                }
                assert(state.ban_all(less).ban(index as int) =~= state.ban_all(more));
            }
            self.selector.ban(index);
            k = k + 1;
        }
        proof {
            assert(banned@.take(k as int) =~= banned@);
        }
    }

    /// Lifts the bans of a plan.
    fn undo_exclude(&mut self, banned: &Vec<usize>)
        requires
            old(self).selector.inv(),
        ensures
            final(self).selector.inv(),
            final(self).selector@ == (SelectionState {
                banned: Seq::new(
                    old(self).selector@.banned.len(),
                    |c: int| old(self).selector@.banned[c] && !banned@.contains(c as usize),
                ),
                ..old(self).selector@
            }),
            final(self).metric == old(self).metric,
            final(self).stack == old(self).stack,
            final(self).best == old(self).best,
            final(self).exhausted == old(self).exhausted,
            final(self).deduplicate == old(self).deduplicate,
            final(self).root == old(self).root,
    {
        let ghost before = *self;
        let ghost state = self.selector@;
        let mut k: usize = 0;
        while k < banned.len()
            invariant
                self.selector.inv(),
                state == before.selector@,
                k <= banned@.len(),
                self.selector@ == (SelectionState {
                    banned: Seq::new(
                        state.banned.len(),
                        |c: int| state.banned[c] && !banned@.take(k as int).contains(c as usize),
                    ),
                    ..state
                }),
                self.metric == before.metric,
                self.stack == before.stack,
                self.best == before.best,
                self.exhausted == before.exhausted,
                self.deduplicate == before.deduplicate,
                self.root == before.root,
            decreases banned@.len() - k,
        {
            let index: usize = banned[k];
            let ghost prev = self.selector@;
            proof {
                self.selector.inv_wf();
            }
            self.selector.unban(index);
            proof {
                let (less, more) = (banned@.take(k as int), banned@.take(k + 1));
                assert(more =~= less.push(index));
                assert forall|c: int| 0 <= c < state.banned.len() implies #[trigger] more.contains(
                    c as usize,
                ) == (less.contains(c as usize) || c == index) by {
                    if less.contains(c as usize) {
                        let j = choose|j: int| 0 <= j < less.len() && less[j] == c as usize;
                        assert(more[j] == c as usize);
                    }
                    if c == index {
                        assert(more[k as int] == c as usize);
                    }
                }
                let next = Seq::new(
                    state.banned.len(),
                    |c: int| state.banned[c] && !banned@.take(k + 1).contains(c as usize),
                );
                assert forall|c: int| 0 <= c < state.banned.len() implies self.selector@.banned[c]
                    == next[c] by {
                    assert(more.contains(c as usize) == (less.contains(c as usize) || c == index));
                    assert(prev.banned[c] == (state.banned[c] && !less.contains(c as usize)));
                }
                assert(self.selector@.banned =~= next);
            }
            k = k + 1;
        }
        proof {
            assert(banned@.take(k as int) =~= banned@);
        }
    }

    /// Lifting the bans of undecided candidates leads back to the state before they were banned.
    proof fn undone(state: SelectionState, list: Seq<usize>)
        requires
            state.wf(),
            forall|k: int|
                0 <= k < list.len() ==> #[trigger] list[k] < state.problem.n() && state.undecided(
                    list[k] as int,
                ),
        ensures
            (SelectionState {
                banned: Seq::new(
                    state.ban_all(list).banned.len(),
                    |c: int| state.ban_all(list).banned[c] && !list.contains(c as usize),
                ),
                ..state.ban_all(list)
            }) == state,
    {
        let back = Seq::new(
            state.ban_all(list).banned.len(),
            |c: int| state.ban_all(list).banned[c] && !list.contains(c as usize),
        );
        assert forall|c: int| 0 <= c < back.len() implies back[c] == state.banned[c] by {
            if list.contains(c as usize) {
                let k = choose|k: int| 0 <= k < list.len() && list[k] == c as usize;
                assert(state.undecided(list[k] as int));
            }
        }
        assert(back =~= state.banned);
    }

    /// Selecting an undecided candidate and deselecting it again changes nothing.
    proof fn deselected(state: SelectionState, c: int)
        requires
            0 <= c < state.selected.len(),
            !state.selected[c],
        ensures
            state.select(c).deselect(c) == state,
    {
        assert(state.select(c).deselect(c).selected =~= state.selected);
    }

    /// Steps into the child that selects `index`.
    fn push_include(&mut self, index: usize, cursor: usize, sibling_pending: bool)
        requires
            old(self).inv(),
            !old(self).exhausted,
            cursor < old(self).selector@.problem.n(),
            old(self).selector@.order[cursor as int] == index,
            old(self).selector@.undecided(index as int),
            forall|j: int|
                0 <= j < cursor ==> !old(self).selector@.undecided(
                    #[trigger] old(self).selector@.order[j] as int,
                ),
            old(self).search().beats(old(self).selector@.selected),
            sibling_pending || !bnb::promising(
                (old(self).metric.model().bound)(
                    old(self).selector@.ban_all(
                        old(self).selector@.exclusion(
                            index,
                            cursor as int,
                            old(self).deduplicate,
                        ).0,
                    ),
                ),
                old(self).best,
            ),
        ensures
            final(self).inv(),
            !final(self).exhausted,
            final(self).continues(old(self).search()),
            final(self).best == old(self).best,
            final(self).search() == old(self).search().push(final(self).stack@.last()),
            final(self).stack@.last().decides(old(self).selector@, old(self).deduplicate),
            final(self).stack@.last().is_inclusion,
            final(self).stack@.last().index == index,
            final(self).stack@.last().cursor == cursor,
            final(self).stack@.last().sibling_pending == sibling_pending,
            final(self).search().remaining(true) < old(self).search().remaining(true),
    {
        let ghost before = self.search();
        proof {
            self.selector.inv_wf();
            assert(self.selector@.order[cursor as int] < self.selector@.problem.n());
        }
        self.selector.select(index);
        let frame = Frame {
            is_inclusion: true,
            index,
            cursor,
            next_cursor: cursor + 1,
            banned: Vec::new(),
            sibling_pending,
        };
        proof {
            before.branch(frame);
        }
        self.stack.push(frame);
        assert(self.search() == before.push(frame));
    }

    /// Steps into the child that bans the candidates of a plan.
    fn push_exclude(
        &mut self,
        index: usize,
        cursor: usize,
        banned: Vec<usize>,
        next_cursor: usize,
        sibling_pending: bool,
    )
        requires
            old(self).inv(),
            !old(self).exhausted,
            cursor < old(self).selector@.problem.n(),
            old(self).selector@.order[cursor as int] == index,
            old(self).selector@.undecided(index as int),
            forall|j: int|
                0 <= j < cursor ==> !old(self).selector@.undecided(
                    #[trigger] old(self).selector@.order[j] as int,
                ),
            old(self).search().beats(old(self).selector@.selected),
            (banned@, next_cursor as int) == old(self).selector@.exclusion(
                index,
                cursor as int,
                old(self).deduplicate,
            ),
            sibling_pending || !bnb::promising(
                (old(self).metric.model().bound)(old(self).selector@.select(index as int)),
                old(self).best,
            ),
        ensures
            final(self).inv(),
            !final(self).exhausted,
            final(self).continues(old(self).search()),
            final(self).best == old(self).best,
            final(self).search() == old(self).search().push(final(self).stack@.last()),
            final(self).stack@.last().decides(old(self).selector@, old(self).deduplicate),
            !final(self).stack@.last().is_inclusion,
            final(self).stack@.last().index == index,
            final(self).stack@.last().cursor == cursor,
            final(self).stack@.last().sibling_pending == sibling_pending,
            final(self).search().remaining(true) < old(self).search().remaining(true),
    {
        let ghost before = self.search();
        proof {
            self.selector.inv_wf();
            self.selector@.exclusion_bans(index, cursor as int, self.deduplicate);
        }
        self.apply_exclude(&banned);
        let frame = Frame {
            is_inclusion: false,
            index,
            cursor,
            next_cursor,
            banned,
            sibling_pending,
        };
        proof {
            before.branch(frame);
        }
        self.stack.push(frame);
        assert(self.search() == before.push(frame));
    }

    /// Steps into the more promising child of the current node. `false` if neither child can beat
    /// the best score so far, or nothing is left undecided.
    #[verifier::spinoff_prover]
    #[verifier::rlimit(50)]
    fn descend(&mut self) -> (r: bool)
        requires
            old(self).inv(),
            !old(self).exhausted,
            old(self).search().beats(old(self).selector@.selected),
        ensures
            final(self).continues(old(self).search()),
            final(self).best == old(self).best,
            !final(self).exhausted,
            r ==> final(self).inv() && final(self).search().remaining(true)
                < old(self).search().remaining(true),
            r ==> old(self).search().descends(final(self).search()),
            !r ==> old(self).search().is_dead_end(),
            !r ==> {
                &&& final(self).selector.inv()
                &&& final(self).selector@ == final(self).search().current()
                &&& final(self).search() == old(self).search()
                &&& final(self).search().on_course(false)
                &&& final(self).search().remaining(false) < old(self).search().remaining(true)
            },
    {
        let ghost before = self.search();
        let ghost cur = self.selector@;
        proof {
            before.nodes_reached(before.frames.len() as int);
        }
        let start: usize = self.cursor();
        let cursor: usize = match self.selector.next_undecided(start) {
            Some(cursor) => cursor,
            None => {
                proof {
                    assert forall|c: int| 0 <= c < cur.problem.n() implies !#[trigger] cur.undecided(
                        c,
                    ) by {
                        let j = model::position_in_order(cur.order, cur.problem.n(), c);
                        assert(!cur.undecided(cur.order[j] as int));
                    }
                    before.leaf();
                }
                return false;
            },
        };
        let index: usize = self.selector.candidate_order()[cursor];
        proof {
            assert(cur.order[cursor as int] < cur.problem.n());
            cur.exclusion_bans(index, cursor as int, self.deduplicate);
            Self::deselected(cur, index as int);
        }

        self.selector.select(index);
        let inc_bound: Option<Score> = self.current_bound();
        let inc_ok: bool = self.is_promising(inc_bound);
        self.selector.deselect(index);

        let (banned, exc_next_cursor) = self.exclusion_plan(index, cursor);
        proof {
            Self::undone(cur, banned@);
        }
        self.apply_exclude(&banned);
        let exc_bound: Option<Score> = self.current_bound();
        let exc_ok: bool = self.is_promising(exc_bound);
        self.undo_exclude(&banned);
        assert(self.search() == before);

        if !inc_ok && !exc_ok {
            proof {
                let frame = Frame {
                    is_inclusion: false,
                    index,
                    cursor,
                    next_cursor: exc_next_cursor,
                    banned,
                    sibling_pending: false,
                };
                before.dead_end(frame);
            }
            return false;
        }
        // Equal bounds are decided in favour of inclusion, to get to complete selections as soon as
        // possible.
        let include_first: bool = if inc_ok && exc_ok {
            match (inc_bound, exc_bound) {
                (Some(inc), Some(exc)) => inc <= exc,
                _ => true,
            }
        } else {
            inc_ok
        };
        let sibling_pending: bool = inc_ok && exc_ok;
        if include_first {
            self.push_include(index, cursor, sibling_pending);
        } else {
            self.push_exclude(index, cursor, banned, exc_next_cursor, sibling_pending);
        }
        true
    }

    /// Unwinds the path up to a decision whose pending sibling can still beat the best score so
    /// far, and steps into that sibling. `false` once the whole tree has been searched.
    ///
    /// The sibling's bound is computed anew: the best score may have improved since.
    #[verifier::spinoff_prover]
    #[verifier::rlimit(40)]
    fn backtrack_to_next_branch(&mut self) -> (r: bool)
        requires
            old(self).selector.inv(),
            old(self).selector@ == old(self).search().current(),
            old(self).search().wf(),
            (old(self).metric.model().accepts)(old(self).root@.problem),
            old(self).search().on_course(false),
            !old(self).exhausted,
        ensures
            final(self).continues(old(self).search()),
            final(self).best == old(self).best,
            !final(self).exhausted,
            final(self).selector.inv(),
            final(self).selector@ == final(self).search().current(),
            final(self).search().wf(),
            final(self).search().on_course(r),
            r ==> final(self).search().remaining(true) <= old(self).search().remaining(false),
            r ==> old(self).search().turns(final(self).search()),
            !r ==> old(self).search().ends(final(self).search()),
    {
        let ghost first = self.search();
        assert(first.frames.take(first.frames.len() as int) =~= first.frames);
        loop
            invariant
                self.selector.inv(),
                self.selector@ == self.search().current(),
                self.search().wf(),
                (self.metric.model().accepts)(self.root@.problem),
                self.search().on_course(false),
                !self.exhausted,
                first == old(self).search(),
                self.stack@.len() <= first.frames.len(),
                self.search() == first.back_to(self.stack@.len() as int),
                first.cannot_turn_from(self.stack@.len() as int),
                self.search().remaining(false) <= first.remaining(false),
            decreases self.stack@.len(),
        {
            let ghost before = self.search();
            let ghost n = before.frames.len() - 1;
            let frame: Frame = match self.stack.pop() {
                Some(frame) => frame,
                None => {
                    return false;
                },
            };
            let ghost parent = before.node(n);
            proof {
                assert(before.frames[n] == frame);
                before.nodes_reached(n + 1);
                before.nodes_reached(n);
                assert(frame.decides(parent, self.deduplicate));
                assert(parent.order[frame.cursor as int] < parent.problem.n());
                parent.exclusion_bans(frame.index, frame.cursor as int, self.deduplicate);
                Self::deselected(parent, frame.index as int);
                assert(self.search() == before.pop());
                before.node_prefix(before.pop(), n);
                assert(before.pop().node(n) == parent);
                first.back_by_one(n);
            }
            if frame.is_inclusion {
                self.selector.deselect(frame.index);
                if frame.sibling_pending {
                    let (banned, next_cursor) = self.exclusion_plan(frame.index, frame.cursor);
                    proof {
                        Self::undone(parent, banned@);
                    }
                    self.apply_exclude(&banned);
                    if self.bound_is_promising() {
                        let sibling = Frame {
                            is_inclusion: false,
                            index: frame.index,
                            cursor: frame.cursor,
                            next_cursor,
                            banned,
                            sibling_pending: false,
                        };
                        proof {
                            before.turn(sibling);
                        }
                        self.stack.push(sibling);
                        assert(self.search() == before.pop().push(sibling));
                        return true;
                    }
                    self.undo_exclude(&banned);
                }
            } else {
                proof {
                    Self::undone(parent, frame.banned@);
                }
                self.undo_exclude(&frame.banned);
                if frame.sibling_pending {
                    self.selector.select(frame.index);
                    if self.bound_is_promising() {
                        let sibling = Frame {
                            is_inclusion: true,
                            index: frame.index,
                            cursor: frame.cursor,
                            next_cursor: frame.cursor + 1,
                            banned: Vec::new(),
                            sibling_pending: false,
                        };
                        proof {
                            before.turn(sibling);
                        }
                        self.stack.push(sibling);
                        assert(self.search() == before.pop().push(sibling));
                        return true;
                    }
                    self.selector.deselect(frame.index);
                }
            }
            proof {
                before.unwind();
                assert(self.search() == before.pop());
            }
        }
    }

    /// Runs a round. `None` once the whole tree has been searched; otherwise a selection with its
    /// score if the round found one that beats all before it.
    pub fn next(&mut self) -> (r: Option<Option<(CoinSelector<'a>, Score)>>)
        requires
            old(self).inv(),
        ensures
            final(self).inv(),
            final(self).root() == old(self).root(),
            final(self).search().model == old(self).search().model,
            final(self).search().deduplicate == old(self).search().deduplicate,
            r is None <==> old(self).is_exhausted(),
            r is None ==> final(self).progress() == old(self).progress(),
            r is Some ==> old(self).progress().round(final(self).progress()),
            r is Some ==> final(self).remaining_rounds() < old(self).remaining_rounds(),
            match r {
                Some(Some((cs, score))) => {
                    &&& cs.inv()
                    &&& cs@ == old(self).search().current()
                    &&& old(self).search().finding() == Some(score)
                    &&& old(self).root().reaches(cs@)
                    &&& spares_the_selected(old(self).root(), cs@)
                    &&& old(self).search().score(cs@.selected) == Some(score)
                    &&& old(self).best_score() is Some ==> score < old(self).best_score()->0
                    &&& final(self).best_score() == Some(score)
                },
                Some(None) => {
                    &&& old(self).search().finding() is None
                    &&& final(self).best_score() == old(self).best_score()
                },
                None => true,
            },
    {
        if self.exhausted {
            return None;
        }
        let ghost before = self.search();
        let ghost n = before.frames.len() as int;
        proof {
            before.nodes_reached(n);
            before.bans_spare_the_selected(n);
        }
        // An exclusion node has the same selection as its parent, which was scored already.
        let mut found: Option<(CoinSelector<'a>, Score)> = None;
        if !self.is_exclusion_node() {
            if let Some(score) = self.try_record_best() {
                found = Some((self.selector.clone(), score));
            }
        } else {
            proof {
                assert(before.beats(before.node(n - 1).selected));
                assert(before.node(n).selected == before.node(n - 1).selected);
            }
        }
        let ghost scored = self.search();
        assert(scored == before.scored());
        if !self.descend() {
            let turned: bool = self.backtrack_to_next_branch();
            if !turned {
                self.exhausted = true;
            }
        }
        proof {
            scored.remaining_nonneg(false);
        }
        Some(found)
    }

    /// Whether there is a round to run still, which is then run.
    fn goes_on(&mut self) -> (r: bool)
        requires
            old(self).inv(),
        ensures
            r == !old(self).is_exhausted(),
    {
        self.next().is_some()
    }

    /// A search that has searched its whole tree has reached every goal that it can be held
    /// against.
    pub proof fn exhausted_means_attained(&self, goal: Goal, t: Seq<bool>)
        requires
            self.inv(),
            self.is_exhausted(),
            self.search().model.meets(self.root(), self.search().deduplicate, goal),
            self.root().extended_by(t),
        ensures
            self.search().attains(goal, t),
    {
        self.search().exhausted_attains(goal, t);
    }

    /// A search whose bound is a lower bound, whose interchangeable candidates are so, and that has
    /// searched its whole tree has found the optimum: no valid selection that extends its root
    /// scores less than the best one.
    pub proof fn exhausted_means_optimal(&self, t: Seq<bool>)
        requires
            self.inv(),
            self.is_exhausted(),
            self.search().model.admissible(self.root()),
            self.search().deduplicate ==> self.search().model.symmetric(self.root().problem),
            self.root().extended_by(t),
        ensures
            self.search().beats(t),
    {
        let search = self.search();
        search.model.meets_the_lowest(search.root, search.deduplicate);
        self.exhausted_means_attained(search.model.lowest(search.root.problem), t);
    }

    /// The best score is that of a selection which extends the root.
    pub proof fn best_is_attained(&self)
        requires
            self.inv(),
            self.best_score() is Some,
        ensures
            exists|t: Seq<bool>| #[trigger]
                self.root().extended_by(t) && self.search().score(t) == self.best_score(),
    {
    }
}

/// Whether no candidate that is banned in `after`, but not in `before`, is selected in it.
pub open spec fn spares_the_selected(before: SelectionState, after: SelectionState) -> bool {
    forall|c: int|
        0 <= c < before.problem.n() && #[trigger] after.banned[c] && !before.banned[c]
            ==> !after.selected[c]
}

/// Whether a search from `state` is rooted at `root`: only the order in which candidates are taken
/// differs where they are sorted, and then they are by descending value per weight unit.
pub open spec fn searched_from(state: SelectionState, root: SelectionState, sorted: bool) -> bool {
    &&& root == (SelectionState { order: root.order, ..state })
    &&& root.wf()
    &&& if sorted {
        exists|positions: Seq<usize>|
            {
                &&& #[trigger] state.reordered(root, positions)
                &&& crate::sort::in_order(positions, |p: usize, q: usize| state.ranks_before(p, q))
            }
    } else {
        root == state
    }
}

/// Whether `trace` is what branch and bound goes through, round by round: it starts at `root`, and
/// stops after `max_rounds`, or when the search has ended.
pub open spec fn bnb_trace(
    model: MetricModel,
    root: SelectionState,
    deduplicate: bool,
    max_rounds: usize,
    trace: Seq<Progress>,
) -> bool {
    &&& 1 <= trace.len() <= max_rounds + 1
    &&& trace[0] == Progress::start(root, model, deduplicate)
    &&& search::rounds_follow(trace)
    &&& trace.len() == max_rounds + 1 || !trace.last().live
}

/// Whether round `i` of `trace` is the last one that found a solution.
pub open spec fn is_last_finding(trace: Seq<Progress>, i: int) -> bool {
    &&& 0 <= i < trace.len() - 1
    &&& trace[i].search.finding() is Some
    &&& forall|j: int| i < j < trace.len() - 1 ==> (#[trigger] trace[j]).search.finding() is None
}

/// What branch and bound that goes through `trace` results in: the solution of the last round that
/// found one, or else why there is none.
pub open spec fn bnb_result(
    model: MetricModel,
    before: SelectionState,
    max_rounds: usize,
    trace: Seq<Progress>,
    after: SelectionState,
    r: Result<(Score, Drain), NoBnbSolution>,
) -> bool {
    match r {
        Ok((score, drain)) => {
            &&& exists|i: int|
                {
                    &&& #[trigger] is_last_finding(trace, i)
                    &&& trace[i].search.finding() == Some(score)
                    &&& after == trace[i].search.current()
                }
            &&& drain == (model.drain)(before.problem, after.selected)
        },
        Err(e) => {
            &&& forall|i: int|
                0 <= i < trace.len() - 1 ==> (#[trigger] trace[i]).search.finding() is None
            &&& after == before
            &&& e == if trace.last().live {
                NoBnbSolution::RoundLimit { max_rounds, rounds: max_rounds }
            } else if !before.fundable() {
                NoBnbSolution::InsufficientFunds
            } else {
                NoBnbSolution::MaxWeightExceeded
            }
        },
    }
}

/// Whether every goal that a search from `root` can be held against is reached.
pub open spec fn attains_goals(
    model: MetricModel,
    before: SelectionState,
    root: SelectionState,
    deduplicate: bool,
    r: Result<(Score, Drain), NoBnbSolution>,
) -> bool {
    forall|goal: Goal, t: Seq<bool>|
        #![trigger model.meets(root, deduplicate, goal), before.extended_by(t)]
        model.meets(root, deduplicate, goal) && before.extended_by(t) && goal(t) is Some ==> {
            &&& r matches Ok((score, _))
            &&& score <= goal(t)->0
        }
}

/// What branch and bound from `before` leads to, with its search rooted at `root`.
pub open spec fn bnb_outcome(
    model: MetricModel,
    before: SelectionState,
    root: SelectionState,
    deduplicate: bool,
    max_rounds: usize,
    after: SelectionState,
    r: Result<(Score, Drain), NoBnbSolution>,
) -> bool {
    let p = before.problem;
    let sound = model.admissible(root) && (deduplicate ==> model.symmetric(p));
    &&& exists|trace: Seq<Progress>|
        {
            &&& #[trigger] bnb_trace(model, root, deduplicate, max_rounds, trace)
            &&& bnb_result(model, before, max_rounds, trace, after, r)
            &&& trace.last().live ==> max_rounds < search::tree_size(before)
            &&& !trace.last().live ==> attains_goals(model, before, root, deduplicate, r)
        }
    &&& max_rounds >= search::tree_size(before) ==> attains_goals(
        model,
        before,
        root,
        deduplicate,
        r,
    )
    &&& match r {
        Ok((score, drain)) => {
            &&& root.reaches(after)
            &&& spares_the_selected(before, after)
            &&& (model.score)(p, after.selected) == Some(score)
            &&& drain == (model.drain)(p, after.selected)
            &&& sound && max_rounds >= search::tree_size(before) ==> forall|t: Seq<bool>| #[trigger]
                before.extended_by(t) && (model.score)(p, t) is Some ==> score <= (model.score)(
                    p,
                    t,
                )->0
        },
        Err(e) => {
            &&& after == before
            &&& match e {
                NoBnbSolution::RoundLimit { max_rounds: limit, rounds } => {
                    &&& limit == max_rounds
                    &&& rounds == max_rounds
                    &&& max_rounds < search::tree_size(before)
                },
                NoBnbSolution::InsufficientFunds => !before.fundable(),
                NoBnbSolution::MaxWeightExceeded => before.fundable(),
            }
            &&& sound && !(e is RoundLimit) ==> forall|t: Seq<bool>| #[trigger]
                before.extended_by(t) ==> (model.score)(p, t) is None
            &&& max_rounds > 0 && (model.bound)(root) is Some ==> (model.score)(
                p,
                before.selected,
            ) is None
        },
    }
}

/// The selection and score of a solution.
spec fn solution_of(best: Option<(CoinSelector<'_>, Score)>) -> Option<(SelectionState, Score)> {
    match best {
        Some((cs, score)) => Some((cs@, score)),
        None => None,
    }
}

/// Whether the rounds of `trace` follow each other from `root`, and `found` is the solution of the
/// last of them that found one.
#[verifier::opaque]
spec fn traced(
    model: MetricModel,
    root: SelectionState,
    deduplicate: bool,
    trace: Seq<Progress>,
    found: Option<(SelectionState, Score)>,
) -> bool {
    &&& trace.len() >= 1
    &&& trace[0] == Progress::start(root, model, deduplicate)
    &&& search::rounds_follow(trace)
    &&& match found {
        Some((state, score)) => exists|i: int|
            {
                &&& #[trigger] is_last_finding(trace, i)
                &&& trace[i].search.finding() == Some(score)
                &&& state == trace[i].search.current()
            },
        None => forall|i: int|
            0 <= i < trace.len() - 1 ==> (#[trigger] trace[i]).search.finding() is None,
    }
}

/// No round has been run at the start.
proof fn trace_starts(model: MetricModel, root: SelectionState, deduplicate: bool)
    ensures
        traced(
            model,
            root,
            deduplicate,
            seq![Progress::start(root, model, deduplicate)],
            None,
        ),
{
    reveal(traced);
}

/// One more round.
proof fn trace_goes_on(
    model: MetricModel,
    root: SelectionState,
    deduplicate: bool,
    trace: Seq<Progress>,
    found: Option<(SelectionState, Score)>,
    next: Progress,
)
    requires
        traced(model, root, deduplicate, trace, found),
        trace.last().round(next),
    ensures
        traced(
            model,
            root,
            deduplicate,
            trace.push(next),
            match trace.last().search.finding() {
                Some(score) => Some((trace.last().search.current(), score)),
                None => found,
            },
        ),
{
    reveal(traced);
    let more = trace.push(next);
    let n = trace.len() as int;
    assert(more[n - 1] == trace.last());
    assert forall|i: int| 0 <= i < more.len() - 1 implies #[trigger] search::is_round(more, i) by {
        if i < n - 1 {
            assert(search::is_round(trace, i));
        }
    }
    if trace.last().search.finding() is Some {
        assert(is_last_finding(more, n - 1));
    } else if found is Some {
        let (state, score) = found->0;
        let i = choose|i: int|
            {
                &&& #[trigger] is_last_finding(trace, i)
                &&& trace[i].search.finding() == Some(score)
                &&& state == trace[i].search.current()
            };
        assert(more[i] == trace[i]);
        assert forall|j: int| i < j < more.len() - 1 implies (
        #[trigger] more[j]).search.finding() is None by {
            if j < n - 1 {
                assert(trace[j].search.finding() is None);
            }
        }
        assert(is_last_finding(more, i));
    } else {
        assert forall|j: int| 0 <= j < more.len() - 1 implies (
        #[trigger] more[j]).search.finding() is None by {
            if j < n - 1 {
                assert(trace[j].search.finding() is None);
            }
        }
    }
}

/// What the rounds result in.
proof fn trace_results(
    model: MetricModel,
    before: SelectionState,
    root: SelectionState,
    deduplicate: bool,
    max_rounds: usize,
    trace: Seq<Progress>,
    found: Option<(SelectionState, Score)>,
    after: SelectionState,
    r: Result<(Score, Drain), NoBnbSolution>,
)
    requires
        traced(model, root, deduplicate, trace, found),
        trace.len() <= max_rounds + 1,
        trace.len() == max_rounds + 1 || !trace.last().live,
        trace.last().live ==> max_rounds < search::tree_size(before),
        root.selected == before.selected,
        root.problem == before.problem,
        !trace.last().live ==> attains_goals(model, before, root, deduplicate, r),
        match r {
            Ok((score, drain)) => {
                &&& found == Some((after, score))
                &&& root.reaches(after)
                &&& spares_the_selected(before, after)
                &&& (model.score)(before.problem, after.selected) == Some(score)
                &&& drain == (model.drain)(before.problem, after.selected)
            },
            Err(e) => {
                &&& found is None
                &&& after == before
                &&& e == if trace.last().live {
                    NoBnbSolution::RoundLimit { max_rounds, rounds: max_rounds }
                } else if !before.fundable() {
                    NoBnbSolution::InsufficientFunds
                } else {
                    NoBnbSolution::MaxWeightExceeded
                }
            },
        },
    ensures
        bnb_outcome(model, before, root, deduplicate, max_rounds, after, r),
{
    reveal(traced);
    if model.admissible(root) && (deduplicate ==> model.symmetric(root.problem)) {
        model.meets_the_lowest(root, deduplicate);
        assert forall|t: Seq<bool>|
            !trace.last().live && #[trigger] before.extended_by(t) && (model.score)(
                before.problem,
                t,
            ) is Some implies {
            &&& r matches Ok((score, _))
            &&& score <= (model.score)(before.problem, t)->0
        } by {
            assert(model.lowest(root.problem)(t) is Some);
        }
    }
    assert(bnb_trace(model, root, deduplicate, max_rounds, trace));
    assert(bnb_result(model, before, max_rounds, trace, after, r));
    if r is Err && max_rounds > 0 && (model.bound)(root) is Some {
        assert(trace[0].search.current() == root);
        assert(trace[0].search.finding() is None);
    }
}

/// Two traces of the same search go through the same rounds.
proof fn traces_are_alike(
    model: MetricModel,
    root: SelectionState,
    deduplicate: bool,
    max_rounds: usize,
    a: Seq<Progress>,
    b: Seq<Progress>,
    i: int,
)
    requires
        bnb_trace(model, root, deduplicate, max_rounds, a),
        bnb_trace(model, root, deduplicate, max_rounds, b),
        0 <= i < a.len(),
    ensures
        i < b.len(),
        a[i].is_like(b[i]),
    decreases i,
{
    if i > 0 {
        traces_are_alike(model, root, deduplicate, max_rounds, a, b, i - 1);
        assert(search::is_round(a, i - 1));
        if i == b.len() {
            assert(b.last() == b[i - 1]);
        }
        assert(search::is_round(b, i - 1));
        a[i - 1].round_is_determined(b[i - 1], a[i], b[i]);
    }
}

/// What branch and bound results in is determined by where it starts, by what the metric computes,
/// and by the number of rounds.
pub proof fn outcome_is_determined(
    model: MetricModel,
    before: SelectionState,
    root: SelectionState,
    deduplicate: bool,
    max_rounds: usize,
    after: SelectionState,
    r: Result<(Score, Drain), NoBnbSolution>,
    other_after: SelectionState,
    other: Result<(Score, Drain), NoBnbSolution>,
)
    requires
        bnb_outcome(model, before, root, deduplicate, max_rounds, after, r),
        bnb_outcome(model, before, root, deduplicate, max_rounds, other_after, other),
    ensures
        r == other,
        after == other_after,
{
    let a = choose|trace: Seq<Progress>|
        {
            &&& #[trigger] bnb_trace(model, root, deduplicate, max_rounds, trace)
            &&& bnb_result(model, before, max_rounds, trace, after, r)
        };
    let b = choose|trace: Seq<Progress>|
        {
            &&& #[trigger] bnb_trace(model, root, deduplicate, max_rounds, trace)
            &&& bnb_result(model, before, max_rounds, trace, other_after, other)
        };
    traces_are_alike(model, root, deduplicate, max_rounds, a, b, a.len() - 1);
    traces_are_alike(model, root, deduplicate, max_rounds, b, a, b.len() - 1);
    assert forall|i: int| 0 <= i < a.len() implies (#[trigger] a[i]).search.finding()
        == b[i].search.finding() && a[i].search.current() == b[i].search.current() && a[i].live
        == b[i].live by {
        traces_are_alike(model, root, deduplicate, max_rounds, a, b, i);
        a[i].search.alike_at(b[i].search);
    }
    if r is Ok {
        let i = choose|i: int| #[trigger] is_last_finding(a, i) && after == a[i].search.current();
        assert(a[i].search.finding() is Some);
        assert(b[i].search.finding() is Some);
    }
    if other is Ok {
        let j = choose|j: int| #[trigger]
            is_last_finding(b, j) && other_after == b[j].search.current();
        assert(a[j].search.finding() is Some);
    }
}

impl<'a> CoinSelector<'a> {
    /// Rounds of branch and bound that minimize the score of `metric`, starting from this
    /// selection.
    ///
    /// Not every round yields a solution. Each solution scores less than the one before it.
    pub fn bnb_solutions<M: BnbMetric>(&self, metric: M) -> (r: BnbIter<'a, M>)
        requires
            self.inv(),
            (metric.model().accepts)(self@.problem),
        ensures
            r.inv(),
            exists|sorted: bool|
                {
                    &&& #[trigger] searched_from(self@, r.root(), sorted)
                    &&& call_ensures(
                        M::requires_ordering_by_descending_value_pwu,
                        (&metric,),
                        sorted,
                    )
                },
            call_ensures(
                M::deduplicate_equivalent_candidates,
                (&metric,),
                r.search().deduplicate,
            ),
            r.progress() == Progress::start(r.root(), metric.model(), r.search().deduplicate),
            r.remaining_rounds() <= search::tree_size(self@),
    {
        BnbIter::new(self.clone(), metric)
    }

    /// Runs branch and bound to minimize the score of `metric`.
    ///
    /// It goes on until no better solution can be found, or for `max_rounds`. If a solution is
    /// found, it becomes this selection, and its score and the change output that the metric
    /// decides on are returned.
    #[verifier::spinoff_prover]
    #[verifier::rlimit(30)]
    pub fn run_bnb<M: BnbMetric>(&mut self, metric: M, max_rounds: usize) -> (r: Result<
        (Score, Drain),
        NoBnbSolution,
    >)
        requires
            old(self).inv(),
            (metric.model().accepts)(old(self)@.problem),
            old(self)@.problem.fits(Drain::spec_none()),
        ensures
            final(self).inv(),
            exists|root: SelectionState, sorted: bool, deduplicate: bool|
                {
                    &&& #[trigger] searched_from(old(self)@, root, sorted)
                    &&& call_ensures(
                        M::requires_ordering_by_descending_value_pwu,
                        (&metric,),
                        sorted,
                    )
                    &&& call_ensures(
                        M::deduplicate_equivalent_candidates,
                        (&metric,),
                        deduplicate,
                    )
                    &&& #[trigger] bnb_outcome(
                        metric.model(),
                        old(self)@,
                        root,
                        deduplicate,
                        max_rounds,
                        final(self)@,
                        r,
                    )
                },
    {
        let ghost model = metric.model();
        let ghost before = self@;
        let mut iter: BnbIter<'a, M> = BnbIter::new(self.clone(), metric);
        let ghost root = iter.root();
        let ghost deduplicate = iter.search().deduplicate;
        let ghost sorted = choose|sorted: bool|
            {
                &&& #[trigger] searched_from(before, root, sorted)
                &&& call_ensures(
                    M::requires_ordering_by_descending_value_pwu,
                    (&metric,),
                    sorted,
                )
            };
        let mut rounds: usize = 0;
        let mut best: Option<(CoinSelector<'a>, Score)> = None;
        let ghost mut trace: Seq<Progress> = seq![iter.progress()];
        proof {
            trace_starts(model, root, deduplicate);
        }
        while rounds < max_rounds
            invariant
                iter.inv(),
                root == iter.root(),
                searched_from(before, root, sorted),
                model == iter.search().model,
                deduplicate == iter.search().deduplicate,
                rounds <= max_rounds,
                rounds + iter.remaining_rounds() <= search::tree_size(before) || iter.is_exhausted(),
                trace.len() == rounds + 1,
                trace.last() == iter.progress(),
                traced(model, root, deduplicate, trace, solution_of(best)),
                match best {
                    Some((cs, score)) => {
                        &&& cs.inv()
                        &&& root.reaches(cs@)
                        &&& spares_the_selected(before, cs@)
                        &&& (model.score)(before.problem, cs@.selected) == Some(score)
                        &&& iter.best_score() == Some(score)
                    },
                    None => iter.best_score() is None,
                },
            ensures
                rounds == max_rounds || iter.is_exhausted(),
            decreases max_rounds - rounds,
        {
            let ghost found = solution_of(best);
            match iter.next() {
                None => {
                    break;
                },
                Some(item) => {
                    rounds = rounds + 1;
                    proof {
                        trace_goes_on(model, root, deduplicate, trace, found, iter.progress());
                        trace = trace.push(iter.progress());
                    }
                    if let Some(solution) = item {
                        best = Some(solution);
                    }
                },
            }
        }
        let ghost found = solution_of(best);
        proof {
            if !iter.is_exhausted() {
                iter.search().remaining_nonneg(true);
            }
            if iter.is_exhausted() {
                assert forall|goal: Goal, t: Seq<bool>|
                    #![trigger model.meets(root, deduplicate, goal), before.extended_by(t)]
                    model.meets(root, deduplicate, goal) && before.extended_by(t) && goal(
                        t,
                    ) is Some implies {
                    &&& iter.best_score() is Some
                    &&& iter.best_score()->0 <= goal(t)->0
                } by {
                    assert(root.extended_by(t));
                    iter.exhausted_means_attained(goal, t);
                }
            }
        }
        if let Some((selector, score)) = best {
            let view = SelectionView::from_selector(&selector);
            let drain: Drain = iter.metric.drain(&view);
            proof {
                trace_results(
                    model,
                    before,
                    root,
                    deduplicate,
                    max_rounds,
                    trace,
                    found,
                    selector@,
                    Ok((score, drain)),
                );
            }
            *self = selector;
            return Ok((score, drain));
        }
        // If the search still goes on it stopped at the round limit, and a larger limit may find a
        // solution. Otherwise no selection is valid.
        let reason: NoBnbSolution = if iter.goes_on() {
            NoBnbSolution::RoundLimit { max_rounds, rounds }
        } else if !self.is_fundable() {
            NoBnbSolution::InsufficientFunds
        } else {
            NoBnbSolution::MaxWeightExceeded
        };
        proof {
            trace_results(
                model,
                before,
                root,
                deduplicate,
                max_rounds,
                trace,
                found,
                before,
                Err(reason),
            );
        }
        Err(reason)
    }
}

} // verus!
