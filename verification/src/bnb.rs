//! Branch and bound: what a metric is, and the tree that is searched for the lowest score.
use crate::bitset;
use crate::drain::Drain;
use crate::model::{ProblemView, SelectionState};
use crate::selection_view::SelectionView;
use vstd::prelude::*;

verus! {

/// What branch and bound minimizes. Lower is better.
pub type Score = i128;

/// What a metric computes, as mathematical functions.
pub struct MetricModel {
    /// The score of a selection, where it is valid.
    pub score: spec_fn(ProblemView, Seq<bool>) -> Option<Score>,
    /// A bound on the scores of the selections that extend a state.
    pub bound: spec_fn(SelectionState) -> Option<Score>,
    /// The change output of a selection.
    pub drain: spec_fn(ProblemView, Seq<bool>) -> Drain,
    /// The problems whose amounts the metric can compute with.
    pub accepts: spec_fn(ProblemView) -> bool,
}

/// A metric whose score branch and bound minimizes.
///
/// Every selection that is passed to these methods carries its own target. The bound is a lower
/// bound on the scores below a node because every node of a search has the same target.
pub trait BnbMetric {
    /// What the metric computes.
    spec fn model(&self) -> MetricModel;

    /// The score of the selection `cs`, or `None` if the selection is invalid.
    fn score(&mut self, cs: &SelectionView<'_>) -> (r: Option<Score>)
        requires
            cs.inv(),
            (old(self).model().accepts)(cs@.problem),
        ensures
            r == (old(self).model().score)(cs@.problem, cs@.selected),
            final(self).model() == old(self).model(),
    ;

    /// The best score, by some heuristic, of `cs` and all selections that extend it, or `None` if
    /// none of them is valid. The view makes no hypothetical update.
    fn bound(&mut self, cs: &SelectionView<'_>) -> (r: Option<Score>)
        requires
            cs.inv(),
            cs.is_current(),
            (old(self).model().accepts)(cs@.problem),
        ensures
            r == (old(self).model().bound)(cs@),
            final(self).model() == old(self).model(),
    ;

    /// The change output that this metric decides on for the selection `cs`, which is the drain
    /// that stands for none if there should be no change.
    fn drain(&mut self, cs: &SelectionView<'_>) -> (r: Drain)
        requires
            cs.inv(),
            (old(self).model().accepts)(cs@.problem),
        ensures
            r == (old(self).model().drain)(cs@.problem, cs@.selected),
            final(self).model() == old(self).model(),
    ;

    /// Whether the metric requires candidates by descending value per weight unit.
    fn requires_ordering_by_descending_value_pwu(&self) -> (r: bool)
        default_ensures
            !r,
    {
        false
    }

    /// Whether the search may treat candidates that look alike as interchangeable.
    fn deduplicate_equivalent_candidates(&self) -> (r: bool)
        default_ensures
            r,
    {
        true
    }
}

/// Whether two candidates have the same value, weight and input counts and drag in the same
/// ancestors.
pub open spec fn look_alike(p: ProblemView, i: int, j: int) -> bool {
    p.candidates[i] == p.candidates[j] && p.drags[i] == p.drags[j]
}

impl SelectionState {
    /// Whether `below` is a node of the tree that is rooted here: it selects and bans at least as
    /// much.
    pub open spec fn reaches(self, below: SelectionState) -> bool {
        &&& below.wf()
        &&& below.problem == self.problem
        &&& below.order == self.order
        &&& self.extended_by(below.selected)
        &&& bitset::subset(self.banned, below.banned)
    }

    /// The state after all candidates of a list are banned.
    pub open spec fn ban_all(self, list: Seq<usize>) -> SelectionState {
        SelectionState {
            banned: Seq::new(
                self.banned.len(),
                |c: int| self.banned[c] || list.contains(c as usize),
            ),
            ..self
        }
    }

    /// The undecided candidates from position `j` on that look like candidate `index`, up to the
    /// first undecided one that does not, added to `found`; and the position where that ends.
    pub open spec fn alike_from(self, index: usize, j: int, found: Seq<usize>) -> (Seq<usize>, int)
        decreases self.problem.n() - j,
    {
        if j >= self.problem.n() {
            (found, j)
        } else if !self.undecided(self.order[j] as int) {
            self.alike_from(index, j + 1, found)
        } else if look_alike(self.problem, index as int, self.order[j] as int) {
            self.alike_from(index, j + 1, found.push(self.order[j]))
        } else {
            (found, j)
        }
    }

    /// What is banned when candidate `index` at position `cursor` is excluded, and the position
    /// from which the next undecided candidate is looked for.
    pub open spec fn exclusion(self, index: usize, cursor: int, deduplicate: bool) -> (
        Seq<usize>,
        int,
    ) {
        if deduplicate {
            self.alike_from(index, cursor + 1, seq![index])
        } else {
            (seq![index], cursor + 1)
        }
    }

    /// What a scan for candidates that look alike finds.
    proof fn alike_from_finds(self, index: usize, j: int, found: Seq<usize>)
        requires
            self.wf(),
            0 <= j <= self.problem.n(),
            forall|k: int|
                0 <= k < found.len() ==> #[trigger] found[k] < self.problem.n() && self.undecided(
                    found[k] as int,
                ) && look_alike(self.problem, index as int, found[k] as int),
        ensures
            ({
                let (list, end) = self.alike_from(index, j, found);
                &&& j <= end <= self.problem.n()
                &&& forall|k: int|
                    0 <= k < list.len() ==> #[trigger] list[k] < self.problem.n() && self.undecided(
                        list[k] as int,
                    ) && look_alike(self.problem, index as int, list[k] as int)
                &&& forall|k: int| 0 <= k < found.len() ==> list.contains(#[trigger] found[k])
                &&& forall|i: int|
                    j <= i < end ==> !self.undecided(#[trigger] self.order[i] as int)
                        || list.contains(self.order[i])
            }),
        decreases self.problem.n() - j,
    {
        if j >= self.problem.n() {
            assert forall|k: int| 0 <= k < found.len() implies found.contains(#[trigger] found[k]) by {}
        } else if !self.undecided(self.order[j] as int) {
            self.alike_from_finds(index, j + 1, found);
        } else if look_alike(self.problem, index as int, self.order[j] as int) {
            let more = found.push(self.order[j]);
            assert(self.order[j] < self.problem.n());
            self.alike_from_finds(index, j + 1, more);
            let (list, end) = self.alike_from(index, j + 1, more);
            assert(list.contains(more[found.len() as int]));
            assert forall|k: int| 0 <= k < found.len() implies list.contains(#[trigger] found[k]) by {
                assert(more[k] == found[k]);
            }
        } else {
            assert forall|k: int| 0 <= k < found.len() implies found.contains(#[trigger] found[k]) by {}
        }
    }

    /// What is banned when a candidate is excluded: the candidate and others that look like it, all
    /// of them undecided. No candidate before the next position stays undecided.
    pub proof fn exclusion_bans(self, index: usize, cursor: int, deduplicate: bool)
        requires
            self.wf(),
            0 <= cursor < self.problem.n(),
            self.order[cursor] == index,
            self.undecided(index as int),
            forall|j: int| 0 <= j < cursor ==> !self.undecided(#[trigger] self.order[j] as int),
        ensures
            ({
                let (list, end) = self.exclusion(index, cursor, deduplicate);
                &&& cursor < end <= self.problem.n()
                &&& list.contains(index)
                &&& forall|k: int|
                    0 <= k < list.len() ==> #[trigger] list[k] < self.problem.n() && self.undecided(
                        list[k] as int,
                    ) && look_alike(self.problem, index as int, list[k] as int)
                &&& !deduplicate ==> list == seq![index]
                &&& forall|i: int|
                    0 <= i < end ==> !self.ban_all(list).undecided(#[trigger] self.order[i] as int)
            }),
    {
        assert(self.order[cursor] < self.problem.n());
        let found = seq![index];
        if deduplicate {
            self.alike_from_finds(index, cursor + 1, found);
        }
        let (list, end) = self.exclusion(index, cursor, deduplicate);
        assert(list.contains(found[0]));
        assert forall|i: int| 0 <= i < end implies !self.ban_all(list).undecided(
            #[trigger] self.order[i] as int,
        ) by {
            assert(self.order[i] < self.problem.n());
        }
    }
}

/// The selection `t` with candidate `j` in place of `i`.
pub open spec fn swapped(t: Seq<bool>, i: int, j: int) -> Seq<bool> {
    t.update(i, false).update(j, true)
}

impl MetricModel {
    /// Whether the bound is a lower bound: below any node of the tree rooted at `root`, no valid
    /// selection scores less than the node's bound.
    pub open spec fn admissible(self, root: SelectionState) -> bool {
        forall|s: SelectionState, t: Seq<bool>|
            #![trigger s.extended_by(t), (self.bound)(s)]
            root.reaches(s) && s.extended_by(t) && (self.score)(root.problem, t) is Some ==> {
                &&& (self.bound)(s) is Some
                &&& (self.bound)(s)->0 <= (self.score)(root.problem, t)->0
            }
    }

    /// Whether candidates that look alike can take each other's place without changing the score.
    pub open spec fn symmetric(self, p: ProblemView) -> bool {
        forall|t: Seq<bool>, i: int, j: int|
            t.len() == p.n() && 0 <= i < p.n() && 0 <= j < p.n() && look_alike(p, i, j) && t[i]
                && !t[j] ==> (self.score)(p, #[trigger] swapped(t, i, j)) == (self.score)(p, t)
    }
}

/// What a search is held against: for some selections, a score that it is to end up with at most.
pub type Goal = spec_fn(Seq<bool>) -> Option<int>;

impl MetricModel {
    /// Whether a search from `root` can be held against `goal`: that asks of no selection more than
    /// its score, the bound is a lower bound on it, and candidates that are treated as
    /// interchangeable do not change it.
    pub open spec fn meets(self, root: SelectionState, deduplicate: bool, goal: Goal) -> bool {
        &&& forall|t: Seq<bool>| #[trigger]
            root.extended_by(t) && goal(t) is Some ==> {
                &&& (self.score)(root.problem, t) is Some
                &&& (self.score)(root.problem, t)->0 <= goal(t)->0
            }
        &&& forall|s: SelectionState, t: Seq<bool>|
            #![trigger s.extended_by(t), (self.bound)(s)]
            root.reaches(s) && s.extended_by(t) && goal(t) is Some ==> {
                &&& (self.bound)(s) is Some
                &&& (self.bound)(s)->0 <= goal(t)->0
            }
        &&& deduplicate ==> forall|t: Seq<bool>, i: int, j: int|
            t.len() == root.problem.n() && 0 <= i < root.problem.n() && 0 <= j < root.problem.n()
                && look_alike(root.problem, i, j) && t[i] && !t[j] ==> goal(
                #[trigger] swapped(t, i, j),
            ) == goal(t)
    }

    /// The goal to end up with the lowest score.
    pub open spec fn lowest(self, p: ProblemView) -> Goal {
        |t: Seq<bool>|
            match (self.score)(p, t) {
                Some(score) => Some(score as int),
                None => None,
            }
    }

    /// Where the bound is admissible and interchangeable candidates are so, a search ends up with
    /// the lowest score.
    pub proof fn meets_the_lowest(self, root: SelectionState, deduplicate: bool)
        requires
            self.admissible(root),
            deduplicate ==> self.symmetric(root.problem),
        ensures
            self.meets(root, deduplicate, self.lowest(root.problem)),
    {
        let goal = self.lowest(root.problem);
        assert forall|s: SelectionState, t: Seq<bool>|
            #![trigger s.extended_by(t), (self.bound)(s)]
            root.reaches(s) && s.extended_by(t) && goal(t) is Some implies {
            &&& (self.bound)(s) is Some
            &&& (self.bound)(s)->0 <= goal(t)->0
        } by {
            assert((self.score)(root.problem, t) is Some);
        }
        if deduplicate {
            assert forall|t: Seq<bool>, i: int, j: int|
                t.len() == root.problem.n() && 0 <= i < root.problem.n() && 0 <= j
                    < root.problem.n() && look_alike(root.problem, i, j) && t[i] && !t[j] implies goal(
                #[trigger] swapped(t, i, j),
            ) == goal(t) by {
                assert((self.score)(root.problem, swapped(t, i, j)) == (self.score)(
                    root.problem,
                    t,
                ));
            }
        }
    }
}

/// Whether a node with this bound can hold a better selection than the best one so far.
pub open spec fn promising(bound: Option<Score>, best: Option<Score>) -> bool {
    match (bound, best) {
        (Some(bound), Some(best)) => best > bound,
        (Some(_), None) => true,
        (None, _) => false,
    }
}

/// A decision on the path to the current node: either `index` was selected, or `banned` (`index`
/// and candidates interchangeable with it) were banned.
#[derive(Debug)]
pub struct Frame {
    /// Whether `index` was selected.
    pub is_inclusion: bool,
    /// The candidate that is decided on.
    pub index: usize,
    /// Position of `index` in the candidate order.
    pub cursor: usize,
    /// Position to resume looking for the next undecided candidate below this frame.
    pub next_cursor: usize,
    /// What was banned.
    pub banned: Vec<usize>,
    /// Whether the other child of this frame's parent still needs visiting.
    pub sibling_pending: bool,
}

impl Frame {
    /// The state below `state` that this decision leads to.
    pub open spec fn child(self, state: SelectionState) -> SelectionState {
        if self.is_inclusion {
            state.select(self.index as int)
        } else {
            state.ban_all(self.banned@)
        }
    }

    /// The state below `state` that the other decision leads to.
    pub open spec fn sibling(self, state: SelectionState, deduplicate: bool) -> SelectionState {
        if self.is_inclusion {
            state.ban_all(state.exclusion(self.index, self.cursor as int, deduplicate).0)
        } else {
            state.select(self.index as int)
        }
    }

    /// Whether this is a decision on the first undecided candidate of `state`.
    pub open spec fn decides(self, state: SelectionState, deduplicate: bool) -> bool {
        &&& self.cursor < state.problem.n()
        &&& state.order[self.cursor as int] == self.index
        &&& state.undecided(self.index as int)
        &&& forall|j: int|
            0 <= j < self.cursor ==> !state.undecided(#[trigger] state.order[j] as int)
        &&& if self.is_inclusion {
            self.next_cursor == self.cursor + 1
        } else {
            (self.banned@, self.next_cursor as int) == state.exclusion(
                self.index,
                self.cursor as int,
                deduplicate,
            )
        }
    }

    /// A decision leads to a node of the same tree where nothing before the next position is
    /// undecided.
    pub proof fn child_reached(self, root: SelectionState, state: SelectionState, deduplicate: bool)
        requires
            root.reaches(state),
            self.decides(state, deduplicate),
        ensures
            root.reaches(self.child(state)),
            root.reaches(self.sibling(state, deduplicate)),
            self.next_cursor <= state.problem.n(),
            forall|j: int|
                0 <= j < self.next_cursor ==> !self.child(state).undecided(
                    #[trigger] state.order[j] as int,
                ),
    {
        let index = self.index as int;
        assert(state.order[self.cursor as int] < state.problem.n());
        state.exclusion_bans(self.index, self.cursor as int, deduplicate);
        let inc = state.select(index);
        assert(root.extended_by(inc.selected)) by {
            assert forall|c: int|
                0 <= c < inc.selected.len() && #[trigger] inc.selected[c] && !root.selected[c] implies !root.banned[c] by {
                if c == index {
                    assert(!state.banned[c]);
                } else {
                    assert(state.selected[c]);
                }
            }
        }
        assert(root.reaches(inc));
        assert forall|j: int|
            self.is_inclusion && 0 <= j < self.next_cursor implies !inc.undecided(
            #[trigger] state.order[j] as int,
        ) by {
            assert(state.order[j] < state.problem.n());
        }
    }
}

} // verus!
