//! Running totals over the unconfirmed ancestors of a selection.
use crate::model::ProblemView;
use crate::selection_problem;
use crate::selection_problem::SelectionProblem;
use crate::sums;
use vstd::prelude::*;

verus! {

/// Running totals over the unconfirmed ancestors the selected candidates drag in, and over the
/// surplus the reachable ones (neither selected nor banned) could still bring.
///
/// The selector decides *when* a candidate's ancestors arrive or leave; the bookkeeping for *what*
/// that changes lives here.
#[derive(Debug, PartialEq, Eq)]
pub struct AncestorTotals {
    /// Weight and fee of the selected candidates' private ancestors. Each belongs to one candidate
    /// only, so a plain sum never counts one twice.
    private: (u64, u64),
    /// How many selected candidates drag in each shared ancestor. Empty unless the problem has
    /// shared ancestors.
    shared_refcounts: Vec<u32>,
    /// Weight and fee of the shared ancestors with a non-zero count, each counted once.
    shared: (u64, u64),
    /// Summed surplus of the private ancestors of every reachable candidate, each candidate's
    /// group netted as one.
    reachable_private_surplus: u64,
    /// How many reachable candidates drag in each shared ancestor. Empty unless the problem has
    /// shared ancestors.
    reachable_shared_refcounts: Vec<u32>,
    /// Summed surplus of the shared ancestors that some reachable candidate drags in and no
    /// selected candidate does yet.
    reachable_shared_surplus: u64,
}

/// The contents of the running totals.
pub struct TotalsView {
    /// Weight and fee of the private ancestors.
    pub private: (u64, u64),
    /// How many selected candidates drag in each shared ancestor.
    pub shared_refcounts: Seq<u32>,
    /// Weight and fee of the shared ancestors.
    pub shared: (u64, u64),
    /// The surplus of the reachable candidates' private ancestors.
    pub reachable_private_surplus: u64,
    /// How many reachable candidates drag in each shared ancestor.
    pub reachable_shared_refcounts: Seq<u32>,
    /// The surplus of the shared ancestors that could still arrive.
    pub reachable_shared_surplus: u64,
}

impl View for AncestorTotals {
    type V = TotalsView;

    closed spec fn view(&self) -> TotalsView {
        TotalsView {
            private: self.private,
            shared_refcounts: self.shared_refcounts@,
            shared: self.shared,
            reachable_private_surplus: self.reachable_private_surplus,
            reachable_shared_refcounts: self.reachable_shared_refcounts@,
            reachable_shared_surplus: self.reachable_shared_surplus,
        }
    }
}

/// For each ancestor, whether its count is not zero.
spec fn counted(rc: Seq<u32>) -> Seq<bool> {
    Seq::new(rc.len(), |a: int| rc[a] > 0)
}

/// For each ancestor, whether its second count is not zero but its first one is.
spec fn pending(rc: Seq<u32>, reach: Seq<u32>) -> Seq<bool> {
    Seq::new(rc.len(), |a: int| reach[a] > 0 && rc[a] == 0)
}

/// One more for ancestor `a`.
spec fn up(rc: Seq<u32>, a: int) -> Seq<u32> {
    rc.update(a, (rc[a] + 1) as u32)
}

/// What one more selected dragger of ancestor `a` changes in the sums.
proof fn lemma_up(rc: Seq<u32>, reach: Seq<u32>, a: int, v: spec_fn(int) -> int)
    requires
        reach.len() == rc.len(),
        0 <= a < rc.len(),
        rc[a] < u32::MAX,
    ensures
        sums::over(counted(up(rc, a)), v) == sums::over(counted(rc), v) + (if rc[a] == 0 {
            v(a)
        } else {
            0
        }),
        sums::over(pending(up(rc, a), reach), v) == sums::over(pending(rc, reach), v) - (if rc[a]
            == 0 && reach[a] > 0 {
            v(a)
        } else {
            0
        }),
{
    if rc[a] == 0 {
        sums::lemma_over_insert(counted(rc), v, a);
        assert(counted(up(rc, a)) =~= counted(rc).update(a, true));
        if reach[a] > 0 {
            sums::lemma_over_remove(pending(rc, reach), v, a);
            assert(pending(up(rc, a), reach) =~= pending(rc, reach).update(a, false));
        } else {
            assert(pending(up(rc, a), reach) =~= pending(rc, reach));
        }
    } else {
        assert(counted(up(rc, a)) =~= counted(rc));
        assert(pending(up(rc, a), reach) =~= pending(rc, reach));
    }
}

/// What one more reachable dragger of ancestor `a` changes in the sums.
proof fn lemma_up_reach(rc: Seq<u32>, reach: Seq<u32>, a: int, v: spec_fn(int) -> int)
    requires
        reach.len() == rc.len(),
        0 <= a < rc.len(),
        reach[a] < u32::MAX,
    ensures
        sums::over(pending(rc, up(reach, a)), v) == sums::over(pending(rc, reach), v) + (if rc[a]
            == 0 && reach[a] == 0 {
            v(a)
        } else {
            0
        }),
{
    if rc[a] == 0 && reach[a] == 0 {
        sums::lemma_over_insert(pending(rc, reach), v, a);
        assert(pending(rc, up(reach, a)) =~= pending(rc, reach).update(a, true));
    } else {
        assert(pending(rc, up(reach, a)) =~= pending(rc, reach));
    }
}

/// Whether the counts of `list` up to `j` have been raised by one over `base`, and no others.
spec fn raised(rc: Seq<u32>, base: Seq<u32>, row: Seq<bool>, list: Seq<u32>, j: int) -> bool {
    &&& rc.len() == base.len()
    &&& forall|k: int| 0 <= k < j ==> rc[#[trigger] list[k] as int] == base[list[k] as int] + 1
    &&& forall|k: int| j <= k < list.len() ==> rc[#[trigger] list[k] as int] == base[list[k] as int]
    &&& forall|a: int| 0 <= a < rc.len() && !row[a] ==> #[trigger] rc[a] == base[a]
}

/// Whether the counts of `list` up to `j` have been lowered by one under `base`, and no others.
spec fn lowered(rc: Seq<u32>, base: Seq<u32>, row: Seq<bool>, list: Seq<u32>, j: int) -> bool {
    &&& rc.len() == base.len()
    &&& forall|k: int| 0 <= k < j ==> rc[#[trigger] list[k] as int] == base[list[k] as int] - 1
    &&& forall|k: int| j <= k < list.len() ==> rc[#[trigger] list[k] as int] == base[list[k] as int]
    &&& forall|a: int| 0 <= a < rc.len() && !row[a] ==> #[trigger] rc[a] == base[a]
}

impl Clone for AncestorTotals {
    fn clone(&self) -> (r: Self)
        ensures
            r@ == self@,
            forall|p: ProblemView, s: Seq<bool>, r2: Seq<bool>|
                self.matches(p, s, r2) ==> #[trigger] r.matches(p, s, r2),
    {
        AncestorTotals {
            private: self.private,
            shared_refcounts: self.shared_refcounts.clone(),
            shared: self.shared,
            reachable_private_surplus: self.reachable_private_surplus,
            reachable_shared_refcounts: self.reachable_shared_refcounts.clone(),
            reachable_shared_surplus: self.reachable_shared_surplus,
        }
    }
}

impl AncestorTotals {
    /// Whether `rc` counts, for each shared ancestor, the candidates of `s` that drag it in.
    spec fn counts(rc: Seq<u32>, p: ProblemView, s: Seq<bool>) -> bool {
        &&& rc.len() == (if p.has_shared() { p.ancestors.len() } else { 0 })
        &&& forall|a: int|
            0 <= a < rc.len() ==> #[trigger] rc[a] == (if p.is_shared(a) {
                p.draggers(s, a)
            } else {
                0
            })
    }

    /// Whether the sums over shared ancestors are those of the counts.
    spec fn shared_sums(self, p: ProblemView) -> bool {
        let rc = self.shared_refcounts@;
        let reach = self.reachable_shared_refcounts@;
        &&& self.shared.0 == sums::over(counted(rc), |a: int| p.ancestors[a].0 as int)
        &&& self.shared.1 == sums::over(counted(rc), |a: int| p.ancestors[a].1 as int)
        &&& self.reachable_shared_surplus == sums::over(
            pending(rc, reach),
            |a: int| p.ancestor_surplus(a),
        )
    }

    /// Whether the sums over private ancestors are those of the selected candidates `s` and the
    /// reachable ones `r`.
    spec fn private_sums(self, p: ProblemView, s: Seq<bool>, r: Seq<bool>) -> bool {
        &&& self.private.0 == p.private_weights(s)
        &&& self.private.1 == p.private_fees(s)
        &&& self.reachable_private_surplus == p.private_surpluses(r)
    }

    /// Whether these are the totals of the selected candidates `s` and the reachable ones `r`.
    pub closed spec fn matches(self, p: ProblemView, s: Seq<bool>, r: Seq<bool>) -> bool {
        &&& s.len() == p.n()
        &&& r.len() == p.n()
        &&& self.private_sums(p, s, r)
        &&& Self::counts(self.shared_refcounts@, p, s)
        &&& Self::counts(self.reachable_shared_refcounts@, p, r)
        &&& self.shared_sums(p)
    }

    /// Where no candidate alone drags in an ancestor, private sums are zero.
    proof fn no_private(p: ProblemView, c: int)
        requires
            !p.has_private(),
            0 <= c < p.n(),
        ensures
            p.private_weight(c) == 0,
            p.private_fee(c) == 0,
            p.private_surplus(c) == 0,
    {
        assert forall|a: int| 0 <= a < p.m() implies !#[trigger] p.privates(c)[a] by {
            assert(!p.is_private(c, a));
        }
        sums::lemma_over_empty(p.privates(c), |a: int| p.ancestors[a].0 as int);
        sums::lemma_over_empty(p.privates(c), |a: int| p.ancestors[a].1 as int);
    }

    /// Raising the counts of all shared ancestors of candidate `c` counts `c` in.
    proof fn raised_counts(
        p: ProblemView,
        rc: Seq<u32>,
        base: Seq<u32>,
        list: Seq<u32>,
        s: Seq<bool>,
        c: int,
    )
        requires
            p.wf(),
            s.len() == p.n(),
            0 <= c < p.n(),
            !s[c],
            p.has_shared(),
            p.m() <= u32::MAX,
            selection_problem::lists_ancestors(list, selection_problem::shared_row(p, c)),
            raised(rc, base, selection_problem::shared_row(p, c), list, list.len() as int),
        ensures
            Self::counts(base, p, s) ==> Self::counts(rc, p, s.update(c, true)),
            Self::counts(rc, p, s.update(c, true)) ==> Self::counts(base, p, s),
    {
        let row = selection_problem::shared_row(p, c);
        let t = s.update(c, true);
        assert forall|a: int| 0 <= a < p.m() && base.len() == p.m() implies #[trigger] rc[a] == base[a] + (if row[a] {
            1int
        } else {
            0
        }) by {
            if row[a] {
                let k = choose|k: int| 0 <= k < list.len() && list[k] == a as u32;
                assert(rc[list[k] as int] == base[list[k] as int] + 1);
            }
        }
        assert forall|a: int| 0 <= a < p.m() implies #[trigger] p.draggers(t, a) == p.draggers(s, a)
            + (if p.drags[c][a] {
            1int
        } else {
            0
        }) by {
            p.draggers_insert(s, c, a);
        }
        assert forall|a: int|
            0 <= a < p.m() && base.len() == p.m() && Self::counts(rc, p, t) implies #[trigger] base[a] == (if p.is_shared(a) {
            p.draggers(s, a)
        } else {
            0
        }) by {
            assert(rc[a] == (if p.is_shared(a) {
                p.draggers(t, a)
            } else {
                0
            }));
        }
    }

    /// Candidate `index` was selected.
    pub(crate) fn add_selected(
        &mut self,
        problem: &SelectionProblem,
        index: usize,
        Ghost(s): Ghost<Seq<bool>>,
        Ghost(r): Ghost<Seq<bool>>,
    )
        requires
            problem.inv(),
            problem@.sums_fit(),
            index < problem@.n(),
            old(self).matches(problem@, s, r),
            !s[index as int],
        ensures
            final(self).matches(
                problem@,
                s.update(index as int, true),
                r,
            ),
    {
        let ghost p = problem@;
        let ghost small = s;
        let ghost large = small.update(index as int, true);
        proof {
            problem.inv_shape();
            assert(large =~= s.update(index as int, true));
            assert(small =~= large.update(index as int, false));
            p.ancestor_split(small);
            p.ancestor_split(large);
            sums::lemma_over_insert(small, |c: int| p.private_weight(c), index as int);
            sums::lemma_over_insert(small, |c: int| p.private_fee(c), index as int);
            sums::lemma_over_insert(small, |c: int| p.private_surplus(c), index as int);
            if !p.has_private() {
                Self::no_private(p, index as int);
            }
        }
        if problem.has_private_ancestors() {
            let (weight, fee) = problem.private_ancestors(index);
            self.private = (self.private.0 + weight, self.private.1 + fee);
        }
        if problem.has_shared_ancestors() {
            let list: &[u32] = problem.shared_drags_in(index);
            let ghost row = selection_problem::shared_row(p, index as int);
            let ghost base = self.shared_refcounts@;
            let ghost before = *self;
            let mut j: usize = 0;
            while j < list.len()
                invariant
                    problem.inv(),
                    p == problem@,
                    p.wf(),
                    p.sums_fit(),
                    p.m() <= u32::MAX,
                    p.has_shared(),
                    index < p.n(),
                    row == selection_problem::shared_row(p, index as int),
                    selection_problem::lists_ancestors(list@, row),
                    small.len() == p.n(),
                    !small[index as int],
                    large == small.update(index as int, true),
                    base == before.shared_refcounts@,
                    Self::counts(base, p, small),
                    base.len() == p.m(),
                    self.reachable_shared_refcounts@ == before.reachable_shared_refcounts@,
                    self.reachable_shared_refcounts@.len() == p.m(),
                    self.private == before.private,
                    self.reachable_private_surplus == before.reachable_private_surplus,
                    self.shared_sums(p),
                    j <= list@.len(),
                    raised(self.shared_refcounts@, base, row, list@, j as int),
                decreases list@.len() - j,
            {
                let anc_index: usize = list[j] as usize;
                let ghost a = anc_index as int;
                let ghost rc = self.shared_refcounts@;
                let ghost other = self.reachable_shared_refcounts@;
                proof {
                    assert(row[list@[j as int] as int]);
                    p.draggers_insert(small, index as int, a);
                    p.dragged_is_counted(large, a);
                    p.dragged_is_counted(small, a);
                    assert(rc[list@[j as int] as int] == base[a]);
                }
                let refcount: u32 = self.shared_refcounts[anc_index];
                proof {
                    lemma_up(rc, other, a, |a: int| p.ancestors[a].0 as int);
                    lemma_up(rc, other, a, |a: int| p.ancestors[a].1 as int);
                    lemma_up(rc, other, a, |a: int| p.ancestor_surplus(a));
                    p.ancestor_sums_bounded(counted(up(rc, a)));
                    p.shared_surplus_bounded(pending(up(rc, a), other));
                }
                if refcount == 0 {
                    let (weight, fee) = problem.ancestors()[anc_index];
                    self.shared = (self.shared.0 + weight, self.shared.1 + fee);
                    // Now selected, so no longer something a descendant could still add.
                    if self.reachable_shared_refcounts[anc_index] > 0 {
                        let surplus: u64 = problem.ancestor_surplus((weight, fee));
                        self.reachable_shared_surplus = self.reachable_shared_surplus - surplus;
                    }
                }
                self.shared_refcounts.set(anc_index, refcount + 1);
                j = j + 1;
            }
            proof {
                Self::raised_counts(p, self.shared_refcounts@, base, list@, small, index as int);
            }
        }
    }

    /// Candidate `index` was deselected.
    pub(crate) fn sub_selected(
        &mut self,
        problem: &SelectionProblem,
        index: usize,
        Ghost(s): Ghost<Seq<bool>>,
        Ghost(r): Ghost<Seq<bool>>,
    )
        requires
            problem.inv(),
            problem@.sums_fit(),
            index < problem@.n(),
            old(self).matches(problem@, s, r),
            s[index as int],
        ensures
            final(self).matches(
                problem@,
                s.update(index as int, false),
                r,
            ),
    {
        let ghost p = problem@;
        let ghost small = s.update(index as int, false);
        let ghost large = small.update(index as int, true);
        proof {
            problem.inv_shape();
            assert(large =~= s);
            assert(small =~= large.update(index as int, false));
            p.ancestor_split(small);
            p.ancestor_split(large);
            sums::lemma_over_insert(small, |c: int| p.private_weight(c), index as int);
            sums::lemma_over_insert(small, |c: int| p.private_fee(c), index as int);
            sums::lemma_over_insert(small, |c: int| p.private_surplus(c), index as int);
            if !p.has_private() {
                Self::no_private(p, index as int);
            }
        }
        if problem.has_private_ancestors() {
            let (weight, fee) = problem.private_ancestors(index);
            self.private = (self.private.0 - weight, self.private.1 - fee);
        }
        if problem.has_shared_ancestors() {
            let list: &[u32] = problem.shared_drags_in(index);
            let ghost row = selection_problem::shared_row(p, index as int);
            let ghost base = self.shared_refcounts@;
            let ghost before = *self;
            let mut j: usize = 0;
            while j < list.len()
                invariant
                    problem.inv(),
                    p == problem@,
                    p.wf(),
                    p.sums_fit(),
                    p.m() <= u32::MAX,
                    p.has_shared(),
                    index < p.n(),
                    row == selection_problem::shared_row(p, index as int),
                    selection_problem::lists_ancestors(list@, row),
                    small.len() == p.n(),
                    !small[index as int],
                    large == small.update(index as int, true),
                    base == before.shared_refcounts@,
                    Self::counts(base, p, large),
                    base.len() == p.m(),
                    self.reachable_shared_refcounts@ == before.reachable_shared_refcounts@,
                    self.reachable_shared_refcounts@.len() == p.m(),
                    self.private == before.private,
                    self.reachable_private_surplus == before.reachable_private_surplus,
                    self.shared_sums(p),
                    j <= list@.len(),
                    lowered(self.shared_refcounts@, base, row, list@, j as int),
                decreases list@.len() - j,
            {
                let anc_index: usize = list[j] as usize;
                let ghost a = anc_index as int;
                let ghost rc = self.shared_refcounts@;
                let ghost other = self.reachable_shared_refcounts@;
                proof {
                    assert(row[list@[j as int] as int]);
                    p.draggers_insert(small, index as int, a);
                    p.dragged_is_counted(large, a);
                    p.dragged_is_counted(small, a);
                    assert(rc[list@[j as int] as int] == base[a]);
                }
                let refcount: u32 = self.shared_refcounts[anc_index];
                let ghost down = rc.update(a, (refcount - 1) as u32);
                proof {
                    assert(up(down, a) =~= rc);
                    lemma_up(down, other, a, |a: int| p.ancestors[a].0 as int);
                    lemma_up(down, other, a, |a: int| p.ancestors[a].1 as int);
                    lemma_up(down, other, a, |a: int| p.ancestor_surplus(a));
                    p.ancestor_sums_bounded(counted(down));
                    p.shared_surplus_bounded(pending(down, other));
                }
                self.shared_refcounts.set(anc_index, refcount - 1);
                if refcount - 1 == 0 {
                    let (weight, fee) = problem.ancestors()[anc_index];
                    self.shared = (self.shared.0 - weight, self.shared.1 - fee);
                    if self.reachable_shared_refcounts[anc_index] > 0 {
                        let surplus: u64 = problem.ancestor_surplus((weight, fee));
                        self.reachable_shared_surplus = self.reachable_shared_surplus + surplus;
                    }
                }
                j = j + 1;
            }
            proof {
                assert(raised(base, self.shared_refcounts@, row, list@, list@.len() as int));
                Self::raised_counts(p, base, self.shared_refcounts@, list@, small, index as int);
            }
        }
    }

    /// Candidate `index` became reachable (neither selected nor banned).
    pub(crate) fn add_reachable(
        &mut self,
        problem: &SelectionProblem,
        index: usize,
        Ghost(s): Ghost<Seq<bool>>,
        Ghost(r): Ghost<Seq<bool>>,
    )
        requires
            problem.inv(),
            problem@.sums_fit(),
            index < problem@.n(),
            old(self).matches(problem@, s, r),
            !r[index as int],
        ensures
            final(self).matches(
                problem@,
                s,
                r.update(index as int, true),
            ),
    {
        let ghost p = problem@;
        let ghost small = r;
        let ghost large = small.update(index as int, true);
        proof {
            problem.inv_shape();
            assert(large =~= r.update(index as int, true));
            assert(small =~= large.update(index as int, false));
            p.ancestor_split(small);
            p.ancestor_split(large);
            sums::lemma_over_insert(small, |c: int| p.private_weight(c), index as int);
            sums::lemma_over_insert(small, |c: int| p.private_fee(c), index as int);
            sums::lemma_over_insert(small, |c: int| p.private_surplus(c), index as int);
            if !p.has_private() {
                Self::no_private(p, index as int);
            }
        }
        if problem.has_private_ancestors() {
            let (weight, fee) = problem.private_ancestors(index);
            let surplus: u64 = problem.ancestor_surplus((weight, fee));
            self.reachable_private_surplus = self.reachable_private_surplus + surplus;
        }
        if problem.has_shared_ancestors() {
            let list: &[u32] = problem.shared_drags_in(index);
            let ghost row = selection_problem::shared_row(p, index as int);
            let ghost base = self.reachable_shared_refcounts@;
            let ghost before = *self;
            let mut j: usize = 0;
            while j < list.len()
                invariant
                    problem.inv(),
                    p == problem@,
                    p.wf(),
                    p.sums_fit(),
                    p.m() <= u32::MAX,
                    p.has_shared(),
                    index < p.n(),
                    row == selection_problem::shared_row(p, index as int),
                    selection_problem::lists_ancestors(list@, row),
                    small.len() == p.n(),
                    !small[index as int],
                    large == small.update(index as int, true),
                    base == before.reachable_shared_refcounts@,
                    Self::counts(base, p, small),
                    base.len() == p.m(),
                    self.shared_refcounts@ == before.shared_refcounts@,
                    self.shared_refcounts@.len() == p.m(),
                    self.private == before.private,
                    self.reachable_private_surplus == before.reachable_private_surplus,
                    self.shared_sums(p),
                    j <= list@.len(),
                    raised(self.reachable_shared_refcounts@, base, row, list@, j as int),
                    self.shared == before.shared,
                decreases list@.len() - j,
            {
                let anc_index: usize = list[j] as usize;
                let ghost a = anc_index as int;
                let ghost rc = self.reachable_shared_refcounts@;
                let ghost other = self.shared_refcounts@;
                proof {
                    assert(row[list@[j as int] as int]);
                    p.draggers_insert(small, index as int, a);
                    p.dragged_is_counted(large, a);
                    p.dragged_is_counted(small, a);
                    assert(rc[list@[j as int] as int] == base[a]);
                }
                let refcount: u32 = self.reachable_shared_refcounts[anc_index];
                proof {
                    lemma_up_reach(other, rc, a, |a: int| p.ancestor_surplus(a));
                    p.shared_surplus_bounded(pending(other, up(rc, a)));
                }
                if refcount == 0 && self.shared_refcounts[anc_index] == 0 {
                    let surplus: u64 = problem.ancestor_surplus(problem.ancestors()[anc_index]);
                    self.reachable_shared_surplus = self.reachable_shared_surplus + surplus;
                }
                self.reachable_shared_refcounts.set(anc_index, refcount + 1);
                j = j + 1;
            }
            proof {
                Self::raised_counts(p, self.reachable_shared_refcounts@, base, list@, small, index as int);
            }
        }
    }

    /// Candidate `index` stopped being reachable (it was selected or banned).
    pub(crate) fn remove_reachable(
        &mut self,
        problem: &SelectionProblem,
        index: usize,
        Ghost(s): Ghost<Seq<bool>>,
        Ghost(r): Ghost<Seq<bool>>,
    )
        requires
            problem.inv(),
            problem@.sums_fit(),
            index < problem@.n(),
            old(self).matches(problem@, s, r),
            r[index as int],
        ensures
            final(self).matches(
                problem@,
                s,
                r.update(index as int, false),
            ),
    {
        let ghost p = problem@;
        let ghost small = r.update(index as int, false);
        let ghost large = small.update(index as int, true);
        proof {
            problem.inv_shape();
            assert(large =~= r);
            assert(small =~= large.update(index as int, false));
            p.ancestor_split(small);
            p.ancestor_split(large);
            sums::lemma_over_insert(small, |c: int| p.private_weight(c), index as int);
            sums::lemma_over_insert(small, |c: int| p.private_fee(c), index as int);
            sums::lemma_over_insert(small, |c: int| p.private_surplus(c), index as int);
            if !p.has_private() {
                Self::no_private(p, index as int);
            }
        }
        if problem.has_private_ancestors() {
            let (weight, fee) = problem.private_ancestors(index);
            let surplus: u64 = problem.ancestor_surplus((weight, fee));
            self.reachable_private_surplus = self.reachable_private_surplus - surplus;
        }
        if problem.has_shared_ancestors() {
            let list: &[u32] = problem.shared_drags_in(index);
            let ghost row = selection_problem::shared_row(p, index as int);
            let ghost base = self.reachable_shared_refcounts@;
            let ghost before = *self;
            let mut j: usize = 0;
            while j < list.len()
                invariant
                    problem.inv(),
                    p == problem@,
                    p.wf(),
                    p.sums_fit(),
                    p.m() <= u32::MAX,
                    p.has_shared(),
                    index < p.n(),
                    row == selection_problem::shared_row(p, index as int),
                    selection_problem::lists_ancestors(list@, row),
                    small.len() == p.n(),
                    !small[index as int],
                    large == small.update(index as int, true),
                    base == before.reachable_shared_refcounts@,
                    Self::counts(base, p, large),
                    base.len() == p.m(),
                    self.shared_refcounts@ == before.shared_refcounts@,
                    self.shared_refcounts@.len() == p.m(),
                    self.private == before.private,
                    self.reachable_private_surplus == before.reachable_private_surplus,
                    self.shared_sums(p),
                    j <= list@.len(),
                    lowered(self.reachable_shared_refcounts@, base, row, list@, j as int),
                    self.shared == before.shared,
                decreases list@.len() - j,
            {
                let anc_index: usize = list[j] as usize;
                let ghost a = anc_index as int;
                let ghost rc = self.reachable_shared_refcounts@;
                let ghost other = self.shared_refcounts@;
                proof {
                    assert(row[list@[j as int] as int]);
                    p.draggers_insert(small, index as int, a);
                    p.dragged_is_counted(large, a);
                    p.dragged_is_counted(small, a);
                    assert(rc[list@[j as int] as int] == base[a]);
                }
                let refcount: u32 = self.reachable_shared_refcounts[anc_index];
                let ghost down = rc.update(a, (refcount - 1) as u32);
                proof {
                    assert(up(down, a) =~= rc);
                    lemma_up_reach(other, down, a, |a: int| p.ancestor_surplus(a));
                    p.shared_surplus_bounded(pending(other, down));
                }
                self.reachable_shared_refcounts.set(anc_index, refcount - 1);
                if refcount - 1 == 0 && self.shared_refcounts[anc_index] == 0 {
                    let surplus: u64 = problem.ancestor_surplus(problem.ancestors()[anc_index]);
                    self.reachable_shared_surplus = self.reachable_shared_surplus - surplus;
                }
                j = j + 1;
            }
            proof {
                assert(raised(base, self.reachable_shared_refcounts@, row, list@, list@.len() as int));
                Self::raised_counts(p, base, self.reachable_shared_refcounts@, list@, small, index as int);
            }
        }
    }

    /// Where the counts are right, the ancestors with a count are the shared ones that are dragged
    /// in.
    proof fn counted_is_shared(rc: Seq<u32>, p: ProblemView, s: Seq<bool>, v: spec_fn(int) -> int)
        requires
            p.wf(),
            s.len() == p.n(),
            Self::counts(rc, p, s),
        ensures
            sums::over(counted(rc), v) == sums::over(p.shared_of(s), v),
    {
        if p.has_shared() {
            assert forall|a: int| 0 <= a < p.m() implies #[trigger] counted(rc)[a] == p.shared_of(s)[a] by {
                p.dragged_is_counted(s, a);
                assert(rc[a] == (if p.is_shared(a) {
                    p.draggers(s, a)
                } else {
                    0
                }));
            }
            assert(counted(rc) =~= p.shared_of(s));
        } else {
            assert forall|a: int| 0 <= a < p.m() implies !#[trigger] p.shared_of(s)[a] by {
                assert(!p.is_shared(a));
            }
            sums::lemma_over_empty(p.shared_of(s), v);
            sums::lemma_over_empty(counted(rc), v);
        }
    }

    /// The totals of a selection in which nothing is selected and nothing is reachable.
    pub(crate) fn nothing_reachable(problem: &SelectionProblem) -> (totals: Self)
        requires
            problem.inv(),
        ensures
            totals.matches(
                problem@,
                Seq::new(problem@.candidates.len(), |c: int| false),
                Seq::new(problem@.candidates.len(), |c: int| false),
            ),
    {
        let ghost p = problem@;
        let ghost none = Seq::new(p.candidates.len(), |c: int| false);
        let shared_len: usize = if problem.has_shared_ancestors() {
            problem.ancestors().len()
        } else {
            0
        };
        let totals = AncestorTotals {
            private: (0, 0),
            shared_refcounts: vec![0u32; shared_len],
            shared: (0, 0),
            reachable_private_surplus: 0,
            reachable_shared_refcounts: vec![0u32; shared_len],
            reachable_shared_surplus: 0,
        };
        proof {
            sums::lemma_over_empty(none, |c: int| p.private_weight(c));
            sums::lemma_over_empty(none, |c: int| p.private_fee(c));
            sums::lemma_over_empty(none, |c: int| p.private_surplus(c));
            let rc = totals.shared_refcounts@;
            let reach = totals.reachable_shared_refcounts@;
            sums::lemma_over_empty(counted(rc), |a: int| p.ancestors[a].0 as int);
            sums::lemma_over_empty(counted(rc), |a: int| p.ancestors[a].1 as int);
            sums::lemma_over_empty(pending(rc, reach), |a: int| p.ancestor_surplus(a));
            assert forall|a: int| #[trigger] p.draggers(none, a) == 0 by {
                sums::lemma_over_empty(none, |c: int| if p.drags[c][a] { 1int } else { 0 });
            }
        }
        totals
    }

    /// The totals of a selection in which nothing is selected and nothing is banned.
    pub(crate) fn new(problem: &SelectionProblem) -> (totals: Self)
        requires
            problem.inv(),
            problem@.sums_fit(),
        ensures
            totals.matches(
                problem@,
                Seq::new(problem@.candidates.len(), |c: int| false),
                problem@.everything(),
            ),
    {
        let ghost p = problem@;
        let ghost none = Seq::new(p.candidates.len(), |c: int| false);
        let mut totals = Self::nothing_reachable(problem);
        // Nothing is selected or banned yet, so every candidate is reachable.
        if problem.has_ancestors() {
            let mut index: usize = 0;
            let ghost mut r = none;
            while index < problem.len()
                invariant
                    problem.inv(),
                    p == problem@,
                    p.sums_fit(),
                    index <= p.n(),
                    none == Seq::new(p.candidates.len(), |c: int| false),
                    r == Seq::new(p.candidates.len(), |c: int| c < index),
                    totals.matches(p, none, r),
                decreases p.n() - index,
            {
                totals.add_reachable(problem, index, Ghost(none), Ghost(r));
                proof {
                    r = r.update(index as int, true);
                    assert(r =~= Seq::new(p.candidates.len(), |c: int| c < index + 1));
                }
                index = index + 1;
            }
            proof {
                assert(r =~= p.everything());
            }
        } else {
            proof {
                let all = p.everything();
                assert forall|c: int| 0 <= c < p.n() implies #[trigger] p.private_surplus(c) == 0 by {
                    Self::no_private(p, c);
                }
                sums::lemma_over_ext(all, all, |c: int| p.private_surplus(c), |c: int| 0int);
                sums::lemma_sum_zero(p.n(), |c: int| if all[c] { (|c: int| 0int)(c) } else { 0 });
                sums::lemma_over_empty(none, |c: int| p.private_surplus(c));
            }
        }
        totals
    }

    /// Summed surplus of the ancestors that reachable candidates could still bring in.
    pub(crate) fn reachable_surplus(
        &self,
        Ghost(p): Ghost<ProblemView>,
        Ghost(s): Ghost<Seq<bool>>,
        Ghost(r): Ghost<Seq<bool>>,
    ) -> (surplus: u64)
        requires
            p.wf(),
            p.sums_fit(),
            self.matches(p, s, r),
        ensures
            surplus == p.reachable_surplus(s, r),
    {
        proof {
            let rc = self.shared_refcounts@;
            let reach = self.reachable_shared_refcounts@;
            let f = |a: int| p.ancestors[a].1 as int;
            let v = |a: int| p.ancestor_surplus(a);
            let addable = p.addable_shared(s, r);
            if p.has_shared() {
                assert forall|a: int| 0 <= a < p.m() implies #[trigger] addable[a] == pending(
                    rc,
                    reach,
                )[a] by {
                    p.dragged_is_counted(s, a);
                    p.dragged_is_counted(r, a);
                    assert(rc[a] == (if p.is_shared(a) {
                        p.draggers(s, a)
                    } else {
                        0
                    }));
                    assert(reach[a] == (if p.is_shared(a) {
                        p.draggers(r, a)
                    } else {
                        0
                    }));
                }
                assert(addable =~= pending(rc, reach));
            } else {
                assert forall|a: int| 0 <= a < p.m() implies !#[trigger] addable[a] by {
                    assert(!p.is_shared(a));
                }
                sums::lemma_over_empty(addable, v);
                sums::lemma_over_empty(pending(rc, reach), v);
            }
            p.shared_surplus_bounded(addable);
            p.ancestor_split(r);
            p.ancestor_sums_bounded(p.union(r));
            sums::lemma_over_le(addable, p.shared_of(r), f);
        }
        self.reachable_private_surplus + self.reachable_shared_surplus
    }

    /// Summed weight and fee of every ancestor the selection drags in, each counted once.
    pub(crate) fn selected(
        &self,
        Ghost(p): Ghost<ProblemView>,
        Ghost(s): Ghost<Seq<bool>>,
        Ghost(r): Ghost<Seq<bool>>,
    ) -> (sum: (u64, u64))
        requires
            p.wf(),
            p.sums_fit(),
            self.matches(p, s, r),
        ensures
            sum.0 == p.ancestor_weight(s),
            sum.1 == p.ancestor_fee(s),
    {
        proof {
            let rc = self.shared_refcounts@;
            Self::counted_is_shared(rc, p, s, |a: int| p.ancestors[a].0 as int);
            Self::counted_is_shared(rc, p, s, |a: int| p.ancestors[a].1 as int);
            p.ancestor_split(s);
            p.ancestor_sums_bounded(p.union(s));
        }
        (self.private.0 + self.shared.0, self.private.1 + self.shared.1)
    }

    /// The totals depend on nothing but which candidates are selected and which are reachable,
    /// never on the order of the operations that led there.
    pub proof fn totals_are_determined(
        self,
        other: AncestorTotals,
        p: ProblemView,
        s: Seq<bool>,
        r: Seq<bool>,
    )
        requires
            self.matches(p, s, r),
            other.matches(p, s, r),
        ensures
            self@ == other@,
    {
        assert(self.shared_refcounts@ =~= other.shared_refcounts@);
        assert(self.reachable_shared_refcounts@ =~= other.reachable_shared_refcounts@);
    }
}

} // verus!
