//! The progress of a branch and bound search, and why an exhausted search has found the optimum.
use crate::bitset;
use crate::bnb;
use crate::bnb::{Frame, Goal, MetricModel, Score};
use crate::model::SelectionState;
use crate::sums;
use vstd::prelude::*;

verus! {

/// A search that is under way: the tree's root, the decisions that lead to the current node, and
/// the best score so far.
pub struct Search {
    /// The root of the tree.
    pub root: SelectionState,
    /// The decisions on the path from the root to the current node.
    pub frames: Seq<Frame>,
    /// The best score so far.
    pub best: Option<Score>,
    /// What is minimized.
    pub model: MetricModel,
    /// Whether candidates that look alike are treated as interchangeable.
    pub deduplicate: bool,
}

/// How far a search has got: where it stands, and whether it still goes on.
pub struct Progress {
    /// Where the search stands.
    pub search: Search,
    /// Whether there is still something to visit.
    pub live: bool,
}

impl Progress {
    /// A search from `root` before its first round.
    pub open spec fn start(root: SelectionState, model: MetricModel, deduplicate: bool) -> Progress {
        Progress {
            search: Search { root, frames: Seq::empty(), best: None, model, deduplicate },
            live: (model.bound)(root) is Some,
        }
    }

    /// Whether a round leads from here to `after`: the current node is scored, and the search steps
    /// into a child of it, or else goes back to a sibling that is pending, or else ends.
    pub open spec fn round(self, after: Progress) -> bool {
        let scored = self.search.scored();
        &&& self.live
        &&& if after.live {
            ||| scored.descends(after.search)
            ||| scored.is_dead_end() && scored.turns(after.search)
        } else {
            scored.is_dead_end() && scored.ends(after.search)
        }
    }
}

/// Whether round `i` of `trace` leads from its entry `i` to the next one.
pub open spec fn is_round(trace: Seq<Progress>, i: int) -> bool {
    trace[i].round(trace[i + 1])
}

/// Whether each entry of `trace` leads to the next one by a round.
pub open spec fn rounds_follow(trace: Seq<Progress>) -> bool {
    forall|i: int| 0 <= i < trace.len() - 1 ==> #[trigger] is_round(trace, i)
}

/// How many nodes a tree that is rooted at `state` has at most.
pub open spec fn tree_size(state: SelectionState) -> int {
    vstd::arithmetic::power2::pow2((bitset::size(state.reachable()) + 1) as nat) - 1
}

/// Deciding an undecided candidate leaves less than half of a tree.
pub proof fn child_is_smaller(state: SelectionState, child: SelectionState, c: int)
    requires
        state.selected.len() == child.selected.len(),
        0 <= c < state.selected.len(),
        state.undecided(c),
        !child.undecided(c),
        forall|d: int| 0 <= d < state.selected.len() && #[trigger] child.undecided(d) ==> state.undecided(d),
    ensures
        1 <= tree_size(child),
        2 * tree_size(child) + 1 <= tree_size(state),
{
    let (r, q) = (state.reachable(), child.reachable());
    let one = |i: int| 1int;
    let rest = r.update(c, false);
    sums::lemma_over_remove(r, one, c);
    sums::lemma_over_le(q, rest, one);
    sums::lemma_over_le(rest, r, one);
    size_is_over(r);
    size_is_over(q);
    size_is_over(rest);
    let (a, b) = (bitset::size(q), bitset::size(r));
    vstd::arithmetic::power2::lemma_pow2_pos(a as nat);
    vstd::arithmetic::power2::lemma_pow2_unfold((a + 1) as nat);
    vstd::arithmetic::power2::lemma_pow2_unfold((a + 2) as nat);
    if a + 2 < b + 1 {
        vstd::arithmetic::power2::lemma_pow2_strictly_increases((a + 2) as nat, (b + 1) as nat);
    }
}

proof fn size_is_over(s: Seq<bool>)
    ensures
        bitset::size(s) == sums::over(s, |i: int| 1int),
        bitset::size(s) >= 0,
{
    sums::lemma_sum_ext(
        s.len() as int,
        |i: int| if s[i] { 1int } else { 0 },
        |i: int| if s[i] { (|i: int| 1int)(i) } else { 0 },
    );
    sums::lemma_sum_nonneg(s.len() as int, |i: int| if s[i] { 1int } else { 0 });
}

/// A tree has a node at least.
pub proof fn tree_is_not_empty(state: SelectionState)
    ensures
        tree_size(state) >= 1,
{
    let a = bitset::size(state.reachable());
    size_is_over(state.reachable());
    vstd::arithmetic::power2::lemma_pow2_pos(a as nat);
    vstd::arithmetic::power2::lemma_pow2_unfold((a + 1) as nat);
}

impl Search {
    /// The state after the first `k` decisions.
    pub open spec fn node(self, k: int) -> SelectionState
        decreases k,
    {
        if k <= 0 {
            self.root
        } else {
            self.frames[k - 1].child(self.node(k - 1))
        }
    }

    /// The state of the current node.
    pub open spec fn current(self) -> SelectionState {
        self.node(self.frames.len() as int)
    }

    /// The other child of the parent of node `k + 1`.
    pub open spec fn sibling(self, k: int) -> SelectionState {
        self.frames[k].sibling(self.node(k), self.deduplicate)
    }

    /// The score of a selection, where it is valid.
    pub open spec fn score(self, t: Seq<bool>) -> Option<Score> {
        (self.model.score)(self.root.problem, t)
    }

    /// Whether the best score so far is as low as the score of `t`, if `t` is valid.
    pub open spec fn beats(self, t: Seq<bool>) -> bool {
        self.score(t) is Some ==> self.best is Some && self.best->0 <= self.score(t)->0
    }

    /// Whether `t` is still to be visited: it extends the current node, if that is live, or a
    /// pending sibling.
    pub open spec fn open(self, live: bool, t: Seq<bool>) -> bool {
        ||| live && self.current().extended_by(t)
        ||| exists|k: int|
            0 <= k < self.frames.len() && (#[trigger] self.frames[k]).sibling_pending
                && self.sibling(k).extended_by(t)
    }

    /// Whether the best score so far is as low as `goal` asks for `t`.
    pub open spec fn attains(self, goal: Goal, t: Seq<bool>) -> bool {
        goal(t) is Some ==> self.best is Some && self.best->0 <= goal(t)->0
    }

    /// Whether `goal` asks the same for some selection that is still to be visited as for `t`.
    pub open spec fn open_alike(self, goal: Goal, live: bool, t: Seq<bool>) -> bool {
        exists|u: Seq<bool>| #[trigger] self.open(live, u) && goal(u) == goal(t)
    }

    /// Whether every selection is accounted for: the best score is as low as `goal` asks for it, or
    /// it asks the same for a selection that is still to be visited.
    pub open spec fn complete(self, goal: Goal, live: bool) -> bool {
        forall|t: Seq<bool>| #[trigger]
            self.root.extended_by(t) && goal(t) is Some ==> self.attains(goal, t)
                || self.open_alike(goal, live, t)
    }

    /// Whether every selection is accounted for with every goal that the search can be held
    /// against.
    pub open spec fn on_course(self, live: bool) -> bool {
        forall|goal: Goal| #[trigger]
            self.model.meets(self.root, self.deduplicate, goal) ==> self.complete(goal, live)
    }

    /// Whether the path consists of decisions, the selections on it have been scored, and some
    /// selection has the best score.
    pub open spec fn wf(self) -> bool {
        &&& self.root.wf()
        &&& forall|k: int|
            0 <= k < self.frames.len() ==> (#[trigger] self.frames[k]).decides(
                self.node(k),
                self.deduplicate,
            )
        &&& forall|k: int| 0 <= k < self.frames.len() ==> self.beats(#[trigger] self.node(k).selected)
        &&& self.best is Some ==> exists|t: Seq<bool>| #[trigger]
            self.root.extended_by(t) && self.score(t) == self.best
    }

    /// The number of nodes that are still to be visited, at most.
    pub open spec fn remaining(self, live: bool) -> int {
        (if live {
            tree_size(self.current())
        } else {
            0
        }) + self.pending(self.frames.len() as int)
    }

    /// The number of nodes below pending siblings of the first `k` decisions, at most.
    pub open spec fn pending(self, k: int) -> int {
        sums::sum(
            k,
            |i: int|
                if self.frames[i].sibling_pending {
                    tree_size(self.sibling(i))
                } else {
                    0
                },
        )
    }

    /// The search with one more decision.
    pub open spec fn push(self, frame: Frame) -> Search {
        Search { frames: self.frames.push(frame), ..self }
    }

    /// The search without its last decision.
    pub open spec fn pop(self) -> Search {
        Search { frames: self.frames.drop_last(), ..self }
    }

    /// The score that the current node adds, if it beats the best one so far. A node that was
    /// reached by excluding has the selection of its parent, which was scored already.
    pub open spec fn finding(self) -> Option<Score> {
        let score = self.score(self.current().selected);
        if self.frames.len() > 0 && !self.frames.last().is_inclusion {
            None
        } else if score is Some && (self.best is Some ==> score->0 < self.best->0) {
            score
        } else {
            None
        }
    }

    /// The search after the current node is scored.
    pub open spec fn scored(self) -> Search {
        match self.finding() {
            Some(score) => Search { best: Some(score), ..self },
            None => self,
        }
    }

    /// Whether the search can step into a child of its current node, and `after` is the search that
    /// has done so. It prefers the child with the lower bound, and to include where the bounds are
    /// the same. The other child is left pending if it is promising too.
    pub open spec fn descends(self, after: Search) -> bool {
        let cur = self.current();
        let frame = after.frames.last();
        let inc = (self.model.bound)(cur.select(frame.index as int));
        let exc = (self.model.bound)(
            cur.ban_all(cur.exclusion(frame.index, frame.cursor as int, self.deduplicate).0),
        );
        let (inc_ok, exc_ok) = (bnb::promising(inc, self.best), bnb::promising(exc, self.best));
        &&& after == self.push(frame)
        &&& frame.decides(cur, self.deduplicate)
        &&& inc_ok || exc_ok
        &&& frame.is_inclusion == (inc_ok && (!exc_ok || inc->0 <= exc->0))
        &&& frame.sibling_pending == (inc_ok && exc_ok)
    }

    /// Whether the current node has no promising child: nothing is undecided, or neither decision
    /// on the first undecided candidate can beat the best score so far.
    pub open spec fn is_dead_end(self) -> bool {
        forall|frame: Frame| #[trigger]
            frame.decides(self.current(), self.deduplicate) ==> {
                &&& !bnb::promising((self.model.bound)(frame.child(self.current())), self.best)
                &&& !bnb::promising(
                    (self.model.bound)(frame.sibling(self.current(), self.deduplicate)),
                    self.best,
                )
            }
    }

    /// Whether the sibling of decision `k` is pending and can still beat the best score so far.
    pub open spec fn can_turn(self, k: int) -> bool {
        self.frames[k].sibling_pending && bnb::promising(
            (self.model.bound)(self.sibling(k)),
            self.best,
        )
    }

    /// Whether none of the decisions from `k` on has a sibling that is pending and promising.
    pub open spec fn cannot_turn_from(self, k: int) -> bool {
        forall|j: int| k <= j < self.frames.len() ==> !#[trigger] self.can_turn(j)
    }

    /// The search with its first `k` decisions only.
    pub open spec fn back_to(self, k: int) -> Search {
        Search { frames: self.frames.take(k), ..self }
    }

    /// Whether `after` is the search that has gone back to the last decision whose sibling is
    /// pending and promising, and has stepped into that sibling.
    pub open spec fn turns(self, after: Search) -> bool {
        let k = after.frames.len() - 1;
        let frame = after.frames.last();
        &&& 0 <= k < self.frames.len()
        &&& self.can_turn(k)
        &&& self.cannot_turn_from(k + 1)
        &&& after == self.back_to(k).push(frame)
        &&& frame.decides(self.node(k), self.deduplicate)
        &&& frame.index == self.frames[k].index
        &&& frame.is_inclusion == !self.frames[k].is_inclusion
        &&& !frame.sibling_pending
    }

    /// Whether no decision is left to go back to, and `after` is the search with all of them
    /// undone.
    pub open spec fn ends(self, after: Search) -> bool {
        &&& self.cannot_turn_from(0)
        &&& after == self.back_to(0)
    }

    /// Nodes depend on the decisions before them only.
    pub proof fn node_prefix(self, other: Search, k: int)
        requires
            other.root == self.root,
            other.deduplicate == self.deduplicate,
            k <= self.frames.len(),
            k <= other.frames.len(),
            forall|i: int| 0 <= i < k ==> #[trigger] other.frames[i] == self.frames[i],
        ensures
            forall|i: int| 0 <= i <= k ==> #[trigger] other.node(i) == self.node(i),
            forall|i: int| 0 <= i < k ==> #[trigger] other.sibling(i) == self.sibling(i),
        decreases k,
    {
        if k > 0 {
            self.node_prefix(other, k - 1);
            assert(other.frames[k - 1] == self.frames[k - 1]);
            assert(other.node(k - 1) == self.node(k - 1));
            assert(other.node(k) == self.node(k));
        }
    }

    /// Going back by one decision more.
    pub proof fn back_by_one(self, k: int)
        requires
            0 <= k < self.frames.len(),
        ensures
            self.back_to(k + 1).pop() == self.back_to(k),
            self.back_to(k + 1).frames.last() == self.frames[k],
            self.back_to(k + 1).node(k) == self.node(k),
            self.back_to(k + 1).sibling(k) == self.sibling(k),
            self.cannot_turn_from(k + 1) && !self.can_turn(k) ==> self.cannot_turn_from(k),
    {
        let back = self.back_to(k + 1);
        assert(back.frames.drop_last() =~= self.frames.take(k));
        self.node_prefix(back, k + 1);
        assert(back.node(k) == self.node(k));
        assert(back.sibling(k) == self.sibling(k));
    }

    /// What is pending depends on the decisions before it only.
    proof fn pending_prefix(self, other: Search, k: int)
        requires
            other.root == self.root,
            other.deduplicate == self.deduplicate,
            0 <= k <= self.frames.len(),
            k <= other.frames.len(),
            forall|i: int| 0 <= i < k ==> #[trigger] other.frames[i] == self.frames[i],
        ensures
            other.pending(k) == self.pending(k),
    {
        self.node_prefix(other, k);
        let (f, g) = (
            |i: int|
                if other.frames[i].sibling_pending {
                    tree_size(other.sibling(i))
                } else {
                    0
                },
            |i: int|
                if self.frames[i].sibling_pending {
                    tree_size(self.sibling(i))
                } else {
                    0
                },
        );
        assert forall|i: int| 0 <= i < k implies #[trigger] f(i) == g(i) by {
            assert(other.frames[i] == self.frames[i]);
        }
        sums::lemma_sum_ext(k, f, g);
    }

    /// Every node on the path belongs to the tree, and so do the siblings.
    pub proof fn nodes_reached(self, k: int)
        requires
            self.wf(),
            0 <= k <= self.frames.len(),
        ensures
            self.root.reaches(self.node(k)),
            k > 0 ==> self.root.reaches(self.sibling(k - 1)),
            k > 0 ==> self.frames[k - 1].next_cursor <= self.root.problem.n() && forall|j: int|
                0 <= j < self.frames[k - 1].next_cursor ==> !self.node(k).undecided(
                    #[trigger] self.root.order[j] as int,
                ),
        decreases k,
    {
        if k > 0 {
            self.nodes_reached(k - 1);
            assert(self.frames[k - 1].decides(self.node(k - 1), self.deduplicate));
            self.frames[k - 1].child_reached(self.root, self.node(k - 1), self.deduplicate);
        }
    }

    /// What is banned on the path is not selected.
    pub proof fn bans_spare_the_selected(self, k: int)
        requires
            self.wf(),
            0 <= k <= self.frames.len(),
        ensures
            forall|c: int|
                0 <= c < self.root.problem.n() && #[trigger] self.node(k).banned[c]
                    && !self.root.banned[c] ==> !self.node(k).selected[c],
        decreases k,
    {
        if k > 0 {
            let (frame, parent) = (self.frames[k - 1], self.node(k - 1));
            self.nodes_reached(k - 1);
            self.bans_spare_the_selected(k - 1);
            assert(frame.decides(parent, self.deduplicate));
            assert(parent.order[frame.cursor as int] < parent.problem.n());
            parent.exclusion_bans(frame.index, frame.cursor as int, self.deduplicate);
            assert forall|c: int|
                0 <= c < self.root.problem.n() && #[trigger] self.node(k).banned[c]
                    && !self.root.banned[c] implies !self.node(k).selected[c] by {
                if !frame.is_inclusion && frame.banned@.contains(c as usize) {
                    let i = choose|i: int|
                        0 <= i < frame.banned@.len() && frame.banned@[i] == c as usize;
                    assert(parent.undecided(frame.banned@[i] as int));
                } else {
                    assert(parent.banned[c]);
                }
            }
        }
    }

    /// What is pending is not negative.
    proof fn pending_nonneg(self, k: int)
        ensures
            self.pending(k) >= 0,
    {
        let f = |i: int|
            if self.frames[i].sibling_pending {
                tree_size(self.sibling(i))
            } else {
                0
            };
        assert forall|i: int| 0 <= i < k implies #[trigger] f(i) >= 0 by {
            tree_is_not_empty(self.sibling(i));
        }
        sums::lemma_sum_nonneg(k, f);
    }

    /// Nothing is left to visit once no decision is pending.
    pub proof fn remaining_nonneg(self, live: bool)
        ensures
            self.remaining(live) >= 0,
            live ==> self.remaining(live) >= 1,
    {
        self.pending_nonneg(self.frames.len() as int);
        tree_is_not_empty(self.current());
    }

    /// A search whose bound is not promising below `s` loses nothing by leaving `s` out.
    pub proof fn not_promising_attains(self, goal: Goal, s: SelectionState, t: Seq<bool>)
        requires
            self.model.meets(self.root, self.deduplicate, goal),
            self.root.reaches(s),
            s.extended_by(t),
            !bnb::promising((self.model.bound)(s), self.best),
        ensures
            self.attains(goal, t),
    {
    }

    /// The start of a search.
    pub proof fn start(self)
        requires
            self.frames.len() == 0,
            self.best is None,
            self.root.wf(),
        ensures
            self.wf(),
            self.on_course(true),
            !bnb::promising((self.model.bound)(self.root), None) ==> self.on_course(false),
            self.remaining(true) == tree_size(self.root),
    {
        assert forall|goal: Goal| #[trigger]
            self.model.meets(self.root, self.deduplicate, goal) implies self.complete(goal, true) by {
            assert forall|t: Seq<bool>| #[trigger]
                self.root.extended_by(t) && goal(t) is Some implies self.open_alike(
                goal,
                true,
                t,
            ) by {
                assert(self.open(true, t));
            }
        }
        if !bnb::promising((self.model.bound)(self.root), None) {
            assert(self.root.reaches(self.root));
            assert forall|goal: Goal| #[trigger]
                self.model.meets(self.root, self.deduplicate, goal) implies self.complete(
                goal,
                false,
            ) by {
                assert forall|t: Seq<bool>| #[trigger]
                    self.root.extended_by(t) && goal(t) is Some implies self.attains(goal, t) by {
                    self.not_promising_attains(goal, self.root, t);
                }
            }
        }
    }

    /// A better score takes the place of the best one so far.
    pub proof fn record(self, live: bool, score: Score)
        requires
            self.wf(),
            self.score(self.current().selected) == Some(score),
            self.best is Some ==> score < self.best->0,
        ensures
            ({
                let after = Search { best: Some(score), ..self };
                &&& after.wf()
                &&& self.on_course(live) ==> after.on_course(live)
                &&& after.beats(after.current().selected)
                &&& after.remaining(live) == self.remaining(live)
                &&& after.current() == self.current()
            }),
    {
        let after = Search { best: Some(score), ..self };
        let n = self.frames.len() as int;
        self.node_prefix(after, n);
        self.pending_prefix(after, n);
        self.nodes_reached(n);
        assert(self.root.extended_by(self.current().selected));
        assert forall|k: int| 0 <= k < n implies after.beats(#[trigger] after.node(k).selected) by {
            assert(self.beats(self.node(k).selected));
        }
        assert forall|k: int| 0 <= k < n implies (#[trigger] after.frames[k]).decides(
            after.node(k),
            after.deduplicate,
        ) by {
            assert(self.frames[k].decides(self.node(k), self.deduplicate));
            assert(after.node(k) == self.node(k));
        }
        if self.on_course(live) {
            assert forall|goal: Goal| #[trigger]
                self.model.meets(self.root, self.deduplicate, goal) implies after.complete(
                goal,
                live,
            ) by {
                assert(self.complete(goal, live));
                assert forall|t: Seq<bool>| #[trigger]
                    self.root.extended_by(t) && goal(t) is Some implies after.attains(goal, t)
                    || after.open_alike(goal, live, t) by {
                    if !self.attains(goal, t) {
                        let u = choose|u: Seq<bool>| #[trigger]
                            self.open(live, u) && goal(u) == goal(t);
                        self.open_transfers(after, live, u);
                    }
                }
            }
        }
    }

    /// What is still to be visited is the same in a search with the same decisions.
    proof fn open_transfers(self, after: Search, live: bool, u: Seq<bool>)
        requires
            self.open(live, u),
            after.frames == self.frames,
            after.root == self.root,
            after.model == self.model,
            after.deduplicate == self.deduplicate,
        ensures
            after.open(live, u),
    {
        let n = self.frames.len() as int;
        self.node_prefix(after, n);
        assert(after.node(n) == self.node(n));
        if !(live && self.current().extended_by(u)) {
            let k = choose|k: int|
                0 <= k < n && (#[trigger] self.frames[k]).sibling_pending && self.sibling(
                    k,
                ).extended_by(u);
            assert(after.frames[k].sibling_pending);
            assert(after.sibling(k) == self.sibling(k));
        }
    }

    /// A current node whose selection has been scored and that leaves nothing undecided is done.
    pub proof fn leaf(self)
        requires
            self.wf(),
            self.beats(self.current().selected),
            forall|c: int|
                0 <= c < self.root.problem.n() ==> !#[trigger] self.current().undecided(c),
        ensures
            self.on_course(true) ==> self.on_course(false),
            self.remaining(false) < self.remaining(true),
    {
        let cur = self.current();
        self.nodes_reached(self.frames.len() as int);
        tree_is_not_empty(cur);
        if self.on_course(true) {
            assert forall|goal: Goal| #[trigger]
                self.model.meets(self.root, self.deduplicate, goal) implies self.complete(
                goal,
                false,
            ) by {
                assert(self.complete(goal, true));
                assert forall|t: Seq<bool>| #[trigger]
                    self.root.extended_by(t) && goal(t) is Some implies self.attains(goal, t)
                    || self.open_alike(goal, false, t) by {
                    if !self.attains(goal, t) {
                        let u = choose|u: Seq<bool>| #[trigger]
                            self.open(true, u) && goal(u) == goal(t);
                        if cur.extended_by(u) {
                            assert forall|c: int| 0 <= c < u.len() implies u[c] == cur.selected[c] by {
                                assert(!cur.undecided(c));
                            }
                            assert(u =~= cur.selected);
                            assert(self.root.extended_by(u));
                        } else {
                            assert(self.open(false, u));
                        }
                    }
                }
            }
        }
    }

    /// A selection below the current node has its like below one of the two children.
    proof fn split(self, goal: Goal, frame: Frame, t: Seq<bool>) -> (u: Seq<bool>)
        requires
            self.wf(),
            frame.decides(self.current(), self.deduplicate),
            self.model.meets(self.root, self.deduplicate, goal),
            self.current().extended_by(t),
        ensures
            frame.child(self.current()).extended_by(u) || frame.sibling(
                self.current(),
                self.deduplicate,
            ).extended_by(u),
            goal(u) == goal(t),
    {
        let cur = self.current();
        let index = frame.index as int;
        let p = self.root.problem;
        self.nodes_reached(self.frames.len() as int);
        cur.exclusion_bans(frame.index, frame.cursor as int, self.deduplicate);
        assert(cur.order[frame.cursor as int] < p.n());
        let list = cur.exclusion(frame.index, frame.cursor as int, self.deduplicate).0;
        let inc = cur.select(index);
        let exc = cur.ban_all(list);
        if t[index] {
            assert(inc.extended_by(t));
            t
        } else if exists|k: int| 0 <= k < list.len() && t[#[trigger] list[k] as int] {
            let k = choose|k: int| 0 <= k < list.len() && t[#[trigger] list[k] as int];
            let b = list[k] as int;
            let u = bnb::swapped(t, b, index);
            assert(cur.undecided(b));
            assert(bnb::look_alike(p, b, index));
            assert(goal(u) == goal(t));
            assert(inc.extended_by(u)) by {
                assert forall|c: int| 0 <= c < u.len() && #[trigger] u[c] && !inc.selected[c] implies !inc.banned[c] by {
                    assert(t[c]);
                }
            }
            u
        } else {
            assert(exc.extended_by(t)) by {
                assert forall|c: int| 0 <= c < t.len() && #[trigger] t[c] && !exc.selected[c] implies !exc.banned[c] by {
                    if list.contains(c as usize) {
                        let k = choose|k: int| 0 <= k < list.len() && list[k] == c as usize;
                        assert(!t[list[k] as int]);
                    }
                }
            }
            t
        }
    }

    /// A search with one more decision has the same path up to it.
    #[verifier::spinoff_prover]
    #[verifier::rlimit(40)]
    proof fn push_keeps(self, frame: Frame)
        requires
            self.wf(),
            frame.decides(self.current(), self.deduplicate),
            self.beats(self.current().selected),
        ensures
            self.push(frame).wf(),
            self.push(frame).current() == frame.child(self.current()),
            self.push(frame).sibling(self.frames.len() as int) == frame.sibling(
                self.current(),
                self.deduplicate,
            ),
            forall|k: int|
                0 <= k < self.frames.len() ==> #[trigger] self.push(frame).sibling(k)
                    == self.sibling(k),
            self.push(frame).pending(self.frames.len() as int + 1) == self.pending(
                self.frames.len() as int,
            ) + (if frame.sibling_pending {
                tree_size(frame.sibling(self.current(), self.deduplicate))
            } else {
                0
            }),
    {
        let n = self.frames.len() as int;
        let after = self.push(frame);
        self.node_prefix(after, n);
        self.pending_prefix(after, n);
        assert(after.node(n) == self.node(n));
        assert(after.frames[n] == frame);
        assert forall|k: int| 0 <= k < after.frames.len() implies (#[trigger] after.frames[k]).decides(
            after.node(k),
            after.deduplicate,
        ) by {
            assert(after.node(k) == self.node(k));
            if k < n {
                assert(self.frames[k].decides(self.node(k), self.deduplicate));
            }
        }
        assert forall|k: int| 0 <= k < after.frames.len() implies after.beats(
            #[trigger] after.node(k).selected,
        ) by {
            assert(after.node(k) == self.node(k));
            if k < n {
                assert(self.beats(self.node(k).selected));
            }
        }
        if self.best is Some {
            let t = choose|t: Seq<bool>| #[trigger]
                self.root.extended_by(t) && self.score(t) == self.best;
            assert(after.root.extended_by(t) && after.score(t) == after.best);
        }
    }

    /// Stepping into a child, with the other child pending unless it is not promising.
    pub proof fn branch(self, frame: Frame)
        requires
            self.wf(),
            frame.decides(self.current(), self.deduplicate),
            self.beats(self.current().selected),
            frame.sibling_pending || !bnb::promising(
                (self.model.bound)(frame.sibling(self.current(), self.deduplicate)),
                self.best,
            ),
        ensures
            self.push(frame).wf(),
            self.push(frame).current() == frame.child(self.current()),
            self.on_course(true) ==> self.push(frame).on_course(true),
            self.push(frame).remaining(true) < self.remaining(true),
    {
        let n = self.frames.len() as int;
        let cur = self.current();
        let after = self.push(frame);
        self.push_keeps(frame);
        self.nodes_reached(n);
        assert(cur.order[frame.cursor as int] < cur.problem.n());
        frame.child_reached(self.root, cur, self.deduplicate);
        self.children_smaller(frame);
        if self.on_course(true) {
            assert forall|goal: Goal| #[trigger]
                after.model.meets(after.root, after.deduplicate, goal) implies after.complete(
                goal,
                true,
            ) by {
                assert(self.complete(goal, true));
                assert forall|t: Seq<bool>| #[trigger]
                    self.root.extended_by(t) && goal(t) is Some implies after.attains(goal, t)
                    || after.open_alike(goal, true, t) by {
                    if !self.attains(goal, t) {
                        self.branch_opens(goal, frame, t);
                    }
                }
            }
        }
    }

    /// Stepping into a child leaves a selection that `goal` asks the same for to be visited, or the
    /// best score is low enough.
    #[verifier::spinoff_prover]
    #[verifier::rlimit(30)]
    proof fn branch_opens(self, goal: Goal, frame: Frame, t: Seq<bool>)
        requires
            self.wf(),
            frame.decides(self.current(), self.deduplicate),
            self.beats(self.current().selected),
            frame.sibling_pending || !bnb::promising(
                (self.model.bound)(frame.sibling(self.current(), self.deduplicate)),
                self.best,
            ),
            self.model.meets(self.root, self.deduplicate, goal),
            self.open_alike(goal, true, t),
        ensures
            self.push(frame).attains(goal, t) || self.push(frame).open_alike(goal, true, t),
    {
        let n = self.frames.len() as int;
        let cur = self.current();
        let after = self.push(frame);
        self.push_keeps(frame);
        self.nodes_reached(n);
        frame.child_reached(self.root, cur, self.deduplicate);
        let u = choose|u: Seq<bool>| #[trigger] self.open(true, u) && goal(u) == goal(t);
        if cur.extended_by(u) {
            let v = self.split(goal, frame, u);
            if frame.child(cur).extended_by(v) {
                assert(after.open(true, v));
            } else if frame.sibling_pending {
                assert(after.frames[n].sibling_pending);
                assert(after.open(true, v));
            } else {
                self.not_promising_attains(goal, frame.sibling(cur, self.deduplicate), v);
            }
        } else {
            let k = choose|k: int|
                0 <= k < n && (#[trigger] self.frames[k]).sibling_pending && self.sibling(
                    k,
                ).extended_by(u);
            assert(after.frames[k] == self.frames[k]);
            assert(after.sibling(k) == self.sibling(k));
            assert(after.open(true, u));
        }
    }

    /// The children of a node leave fewer nodes to visit together than the node itself.
    proof fn children_smaller(self, frame: Frame)
        requires
            self.wf(),
            frame.decides(self.current(), self.deduplicate),
        ensures
            tree_size(frame.child(self.current())) + tree_size(
                frame.sibling(self.current(), self.deduplicate),
            ) < tree_size(self.current()),
            tree_size(frame.child(self.current())) >= 1,
            tree_size(frame.sibling(self.current(), self.deduplicate)) >= 1,
    {
        let cur = self.current();
        let index = frame.index as int;
        self.nodes_reached(self.frames.len() as int);
        cur.exclusion_bans(frame.index, frame.cursor as int, self.deduplicate);
        assert(cur.order[frame.cursor as int] < cur.problem.n());
        child_is_smaller(cur, frame.child(cur), index);
        child_is_smaller(cur, frame.sibling(cur, self.deduplicate), index);
    }

    /// A current node neither of whose children is promising is done.
    pub proof fn dead_end(self, frame: Frame)
        requires
            self.wf(),
            frame.decides(self.current(), self.deduplicate),
            !bnb::promising((self.model.bound)(frame.child(self.current())), self.best),
            !bnb::promising(
                (self.model.bound)(frame.sibling(self.current(), self.deduplicate)),
                self.best,
            ),
        ensures
            self.on_course(true) ==> self.on_course(false),
            self.remaining(false) < self.remaining(true),
    {
        let n = self.frames.len() as int;
        let cur = self.current();
        self.nodes_reached(n);
        frame.child_reached(self.root, cur, self.deduplicate);
        tree_is_not_empty(cur);
        if self.on_course(true) {
            assert forall|goal: Goal| #[trigger]
                self.model.meets(self.root, self.deduplicate, goal) implies self.complete(
                goal,
                false,
            ) by {
                assert(self.complete(goal, true));
                assert forall|t: Seq<bool>| #[trigger]
                    self.root.extended_by(t) && goal(t) is Some implies self.attains(goal, t)
                    || self.open_alike(goal, false, t) by {
                    if !self.attains(goal, t) {
                        let u = choose|u: Seq<bool>| #[trigger]
                            self.open(true, u) && goal(u) == goal(t);
                        if cur.extended_by(u) {
                            let v = self.split(goal, frame, u);
                            if frame.child(cur).extended_by(v) {
                                self.not_promising_attains(goal, frame.child(cur), v);
                            } else {
                                self.not_promising_attains(
                                    goal,
                                    frame.sibling(cur, self.deduplicate),
                                    v,
                                );
                            }
                        } else {
                            assert(self.open(false, u));
                        }
                    }
                }
            }
        }
    }

    /// Taking the last decision back when its sibling holds nothing.
    pub proof fn unwind(self)
        requires
            self.wf(),
            self.frames.len() > 0,
            self.frames.last().sibling_pending ==> !bnb::promising(
                (self.model.bound)(self.sibling(self.frames.len() - 1)),
                self.best,
            ),
        ensures
            self.pop().wf(),
            self.pop().current() == self.node(self.frames.len() - 1),
            self.on_course(false) ==> self.pop().on_course(false),
            self.pop().remaining(false) <= self.remaining(false),
            self.pop().beats(self.pop().current().selected),
    {
        let n = self.frames.len() - 1;
        let after = self.pop();
        self.node_prefix(after, n);
        self.pending_prefix(after, n);
        self.nodes_reached(n + 1);
        tree_is_not_empty(self.sibling(n));
        assert(self.beats(self.node(n).selected));
        assert(after.node(n) == self.node(n));
        self.pop_wf();
        if self.on_course(false) {
            assert forall|goal: Goal| #[trigger]
                after.model.meets(after.root, after.deduplicate, goal) implies after.complete(
                goal,
                false,
            ) by {
                assert(self.complete(goal, false));
                assert forall|t: Seq<bool>| #[trigger]
                    self.root.extended_by(t) && goal(t) is Some implies after.attains(goal, t)
                    || after.open_alike(goal, false, t) by {
                    if !self.attains(goal, t) {
                        let u = choose|u: Seq<bool>| #[trigger]
                            self.open(false, u) && goal(u) == goal(t);
                        let k = choose|k: int|
                            0 <= k < self.frames.len() && (#[trigger] self.frames[k]).sibling_pending
                                && self.sibling(k).extended_by(u);
                        if k == n {
                            self.not_promising_attains(goal, self.sibling(n), u);
                        } else {
                            assert(after.frames[k] == self.frames[k]);
                            assert(after.sibling(k) == self.sibling(k));
                            assert(after.open(false, u));
                        }
                    }
                }
            }
        }
    }

    /// A search without its last decision is one still.
    proof fn pop_wf(self)
        requires
            self.wf(),
            self.frames.len() > 0,
        ensures
            self.pop().wf(),
    {
        let n = self.frames.len() - 1;
        let after = self.pop();
        self.node_prefix(after, n);
        assert forall|k: int| 0 <= k < n implies (#[trigger] after.frames[k]).decides(
            after.node(k),
            after.deduplicate,
        ) by {
            assert(after.node(k) == self.node(k));
            assert(self.frames[k].decides(self.node(k), self.deduplicate));
        }
        assert forall|k: int| 0 <= k < n implies after.beats(#[trigger] after.node(k).selected) by {
            assert(after.node(k) == self.node(k));
            assert(self.beats(self.node(k).selected));
        }
        if self.best is Some {
            let t = choose|t: Seq<bool>| #[trigger]
                self.root.extended_by(t) && self.score(t) == self.best;
            assert(after.root.extended_by(t) && after.score(t) == after.best);
        }
    }

    /// Taking the last decision back and stepping into its pending sibling.
    #[verifier::spinoff_prover]
    #[verifier::rlimit(40)]
    pub proof fn turn(self, frame: Frame)
        requires
            self.wf(),
            self.frames.len() > 0,
            self.frames.last().sibling_pending,
            !frame.sibling_pending,
            frame.decides(self.node(self.frames.len() - 1), self.deduplicate),
            frame.child(self.node(self.frames.len() - 1)) == self.sibling(self.frames.len() - 1),
        ensures
            self.pop().push(frame).wf(),
            self.pop().push(frame).current() == self.sibling(self.frames.len() - 1),
            self.on_course(false) ==> self.pop().push(frame).on_course(true),
            self.pop().push(frame).remaining(true) == self.remaining(false),
    {
        let n = self.frames.len() - 1;
        let mid = self.pop();
        let after = mid.push(frame);
        self.node_prefix(mid, n);
        self.pending_prefix(mid, n);
        assert(self.beats(self.node(n).selected));
        assert(mid.node(n) == self.node(n));
        self.pop_wf();
        mid.push_keeps(frame);
        if self.on_course(false) {
            assert forall|goal: Goal| #[trigger]
                after.model.meets(after.root, after.deduplicate, goal) implies after.complete(
                goal,
                true,
            ) by {
                assert(self.complete(goal, false));
                assert forall|t: Seq<bool>| #[trigger]
                    self.root.extended_by(t) && goal(t) is Some implies after.attains(goal, t)
                    || after.open_alike(goal, true, t) by {
                    if !self.attains(goal, t) {
                        let u = choose|u: Seq<bool>| #[trigger]
                            self.open(false, u) && goal(u) == goal(t);
                        let k = choose|k: int|
                            0 <= k < self.frames.len() && (#[trigger] self.frames[k]).sibling_pending
                                && self.sibling(k).extended_by(u);
                        if k < n {
                            assert(after.frames[k] == self.frames[k]);
                            assert(mid.sibling(k) == self.sibling(k));
                            assert(after.sibling(k) == mid.sibling(k));
                            assert(after.frames[k].sibling_pending && after.sibling(k).extended_by(
                                u,
                            ));
                        } else {
                            assert(after.current().extended_by(u));
                        }
                        assert(after.open(true, u));
                    }
                }
            }
        }
    }

    /// A search that has nothing left to visit has reached every goal that it can be held against.
    pub proof fn exhausted_attains(self, goal: Goal, t: Seq<bool>)
        requires
            self.wf(),
            self.on_course(false),
            self.model.meets(self.root, self.deduplicate, goal),
            self.frames.len() == 0,
            self.root.extended_by(t),
        ensures
            self.attains(goal, t),
    {
        assert(self.complete(goal, false));
        if goal(t) is Some && !self.attains(goal, t) {
            let u = choose|u: Seq<bool>| #[trigger] self.open(false, u) && goal(u) == goal(t);
        }
    }
}

/// Whether two decisions lead to the same state, and are on the same candidate.
pub open spec fn same_decision(f: Frame, g: Frame) -> bool {
    &&& f.is_inclusion == g.is_inclusion
    &&& f.index == g.index
    &&& f.cursor == g.cursor
    &&& f.next_cursor == g.next_cursor
    &&& f.sibling_pending == g.sibling_pending
    &&& !f.is_inclusion ==> f.banned@ == g.banned@
}

/// Two decisions at the same state are on the same candidate.
proof fn one_candidate_is_next(f: Frame, g: Frame, state: SelectionState, deduplicate: bool)
    requires
        f.decides(state, deduplicate),
        g.decides(state, deduplicate),
    ensures
        f.cursor == g.cursor,
        f.index == g.index,
        f.is_inclusion == g.is_inclusion && f.sibling_pending == g.sibling_pending
            ==> same_decision(f, g),
{
    if f.cursor < g.cursor {
        assert(!state.undecided(state.order[f.cursor as int] as int));
    }
    if g.cursor < f.cursor {
        assert(!state.undecided(state.order[g.cursor as int] as int));
    }
}

impl Search {
    /// Whether two searches stand at the same node, by the same decisions.
    pub open spec fn is_like(self, other: Search) -> bool {
        &&& self.root == other.root
        &&& self.best == other.best
        &&& self.model == other.model
        &&& self.deduplicate == other.deduplicate
        &&& self.frames.len() == other.frames.len()
        &&& forall|k: int|
            0 <= k < self.frames.len() ==> same_decision(#[trigger] self.frames[k], other.frames[k])
    }

    /// Searches that stand at the same node by the same decisions have the same path behind them.
    proof fn alike_until(self, other: Search, k: int)
        requires
            self.is_like(other),
            0 <= k <= self.frames.len(),
        ensures
            self.node(k) == other.node(k),
            k < self.frames.len() ==> self.sibling(k) == other.sibling(k) && self.can_turn(k)
                == other.can_turn(k),
        decreases k,
    {
        if k > 0 {
            self.alike_until(other, k - 1);
            assert(same_decision(self.frames[k - 1], other.frames[k - 1]));
        }
        if k < self.frames.len() {
            assert(same_decision(self.frames[k], other.frames[k]));
        }
    }

    /// Searches that stand at the same node by the same decisions find the same there.
    pub proof fn alike_at(self, other: Search)
        requires
            self.is_like(other),
        ensures
            self.current() == other.current(),
            self.finding() == other.finding(),
            self.scored().is_like(other.scored()),
            self.scored().current() == self.current(),
    {
        let n = self.frames.len() as int;
        self.alike_until(other, n);
        if n > 0 {
            assert(same_decision(self.frames[n - 1], other.frames[n - 1]));
        }
        self.node_prefix(self.scored(), n);
        assert(self.scored().node(n) == self.node(n));
    }

    /// A search that steps into a child does not stand at a dead end, and the child is determined.
    proof fn descent_is_determined(self, other: Search, after: Search)
        requires
            self.is_like(other),
            self.descends(after),
        ensures
            !other.is_dead_end(),
            forall|also: Search| #[trigger] other.descends(also) ==> after.is_like(also),
    {
        let n = self.frames.len() as int;
        self.alike_until(other, n);
        let cur = self.current();
        let f = after.frames.last();
        assert(f.decides(other.current(), other.deduplicate));
        assert forall|also: Search| #[trigger] other.descends(also) implies after.is_like(also) by {
            let g = also.frames.last();
            one_candidate_is_next(f, g, cur, self.deduplicate);
            assert(same_decision(f, g));
            assert forall|k: int| 0 <= k < after.frames.len() implies same_decision(
                #[trigger] after.frames[k],
                also.frames[k],
            ) by {
                if k < n {
                    assert(same_decision(self.frames[k], other.frames[k]));
                }
            }
        }
    }

    /// A search that goes back to a sibling does not end, and the sibling is determined.
    proof fn turn_is_determined(self, other: Search, after: Search)
        requires
            self.is_like(other),
            self.turns(after),
        ensures
            forall|also: Search| !#[trigger] other.ends(also),
            forall|also: Search| #[trigger] other.turns(also) ==> after.is_like(also),
    {
        let k = after.frames.len() - 1;
        self.alike_until(other, k);
        assert(other.can_turn(k));
        assert forall|also: Search| #[trigger] other.turns(also) implies after.is_like(also) by {
            let j = also.frames.len() - 1;
            self.alike_until(other, j);
            assert(self.can_turn(j));
            assert(j == k);
            let (f, g) = (after.frames.last(), also.frames.last());
            assert(same_decision(self.frames[k], other.frames[k]));
            one_candidate_is_next(f, g, self.node(k), self.deduplicate);
            assert forall|i: int| 0 <= i < after.frames.len() implies same_decision(
                #[trigger] after.frames[i],
                also.frames[i],
            ) by {
                if i < k {
                    assert(same_decision(self.frames[i], other.frames[i]));
                }
            }
        }
    }
}

impl Progress {
    /// Whether two searches have got equally far.
    pub open spec fn is_like(self, other: Progress) -> bool {
        &&& self.search.is_like(other.search)
        &&& self.live == other.live
    }

    /// Where a round leads is determined.
    pub proof fn round_is_determined(self, other: Progress, after: Progress, other_after: Progress)
        requires
            self.is_like(other),
            self.round(after),
            other.round(other_after),
        ensures
            after.is_like(other_after),
    {
        self.search.alike_at(other.search);
        let (s, o) = (self.search.scored(), other.search.scored());
        assert(o.is_like(s)) by {
            assert forall|k: int| 0 <= k < o.frames.len() implies same_decision(
                #[trigger] o.frames[k],
                s.frames[k],
            ) by {
                assert(same_decision(s.frames[k], o.frames[k]));
            }
        }
        if s.descends(after.search) {
            s.descent_is_determined(o, after.search);
        } else if o.descends(other_after.search) {
            o.descent_is_determined(s, other_after.search);
        } else if s.turns(after.search) {
            s.turn_is_determined(o, after.search);
        } else if o.turns(other_after.search) {
            o.turn_is_determined(s, other_after.search);
        }
    }
}

} // verus!
