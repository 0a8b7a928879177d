//! Facts about the order in which candidates are taken.
use crate::bitset;
use crate::model;
use crate::model::SelectionState;
use vstd::prelude::*;

verus! {

/// Filters that agree on every element keep the same ones.
pub proof fn lemma_filter_ext(s: Seq<usize>, p: spec_fn(usize) -> bool, q: spec_fn(usize) -> bool)
    requires
        forall|i: int| 0 <= i < s.len() ==> p(#[trigger] s[i]) == q(s[i]),
    ensures
        s.filter(p) == s.filter(q),
    decreases s.len(),
{
    reveal(Seq::filter);
    if s.len() > 0 {
        lemma_filter_ext(s.drop_last(), p, q);
        assert(p(s[s.len() - 1]) == q(s[s.len() - 1]));
    }
}

/// Filtering twice is filtering by both.
pub proof fn lemma_filter_twice(
    s: Seq<usize>,
    p: spec_fn(usize) -> bool,
    q: spec_fn(usize) -> bool,
    both: spec_fn(usize) -> bool,
)
    requires
        forall|x: usize| #[trigger] both(x) == (p(x) && q(x)),
    ensures
        s.filter(both) == s.filter(p).filter(q),
    decreases s.len(),
{
    reveal(Seq::filter);
    if s.len() > 0 {
        let rest = s.drop_last();
        lemma_filter_twice(rest, p, q, both);
        assert(both(s.last()) == (p(s.last()) && q(s.last())));
        if p(s.last()) {
            let kept = rest.filter(p);
            assert(kept.push(s.last()).drop_last() =~= kept);
        }
    }
}

/// A filter that keeps everything changes nothing.
pub proof fn lemma_filter_all(s: Seq<usize>, p: spec_fn(usize) -> bool)
    requires
        forall|i: int| 0 <= i < s.len() ==> p(#[trigger] s[i]),
    ensures
        s.filter(p) == s,
    decreases s.len(),
{
    reveal(Seq::filter);
    if s.len() > 0 {
        lemma_filter_all(s.drop_last(), p);
        assert(p(s[s.len() - 1]));
        assert(s.drop_last().push(s.last()) =~= s);
    }
}

/// What a filter keeps stays without duplicates, satisfies the filter, and was there before.
pub proof fn lemma_filter_kept(s: Seq<usize>, p: spec_fn(usize) -> bool)
    requires
        s.no_duplicates(),
    ensures
        s.filter(p).no_duplicates(),
        forall|i: int| 0 <= i < s.filter(p).len() ==> p(#[trigger] s.filter(p)[i]),
        forall|i: int| 0 <= i < s.filter(p).len() ==> s.contains(#[trigger] s.filter(p)[i]),
        forall|i: int| 0 <= i < s.len() && p(#[trigger] s[i]) ==> s.filter(p).contains(s[i]),
    decreases s.len(),
{
    reveal(Seq::filter);
    if s.len() > 0 {
        let rest = s.drop_last();
        lemma_filter_kept(rest, p);
        let kept = rest.filter(p);
        let out = s.filter(p);
        assert forall|i: int| 0 <= i < out.len() implies s.contains(#[trigger] out[i]) by {
            if i < kept.len() {
                assert(rest.contains(kept[i]));
                let j = choose|j: int| 0 <= j < rest.len() && rest[j] == kept[i];
                assert(s[j] == out[i]);
            } else {
                assert(s[s.len() - 1] == out[i]);
            }
        }
        assert forall|i: int| 0 <= i < s.len() && p(#[trigger] s[i]) implies out.contains(s[i]) by {
            if i < rest.len() {
                assert(p(rest[i]));
                let j = choose|j: int| 0 <= j < kept.len() && kept[j] == rest[i];
                assert(out[j] == s[i]);
            } else {
                assert(out[kept.len() as int] == s[i]);
            }
        }
        if p(s.last()) {
            assert forall|i: int, j: int| 0 <= i < j < out.len() implies out[i] != out[j] by {
                if j == kept.len() {
                    assert(rest.contains(kept[i]));
                    let k = choose|k: int| 0 <= k < rest.len() && rest[k] == kept[i];
                    assert(s[k] != s[s.len() - 1]);
                }
            }
        }
    }
}

impl SelectionState {
    /// The undecided candidates are listed once each.
    pub proof fn unselected_lists(self)
        requires
            self.wf(),
        ensures
            self.unselected().no_duplicates(),
            forall|k: int|
                0 <= k < self.unselected().len() ==> #[trigger] self.unselected()[k]
                    < self.problem.n() && self.undecided(self.unselected()[k] as int),
            self.unselected().len() <= self.problem.n(),
            forall|c: int|
                0 <= c < self.problem.n() && #[trigger] self.undecided(c)
                    ==> self.unselected().contains(c as usize),
    {
        let p = |c: usize| self.undecided(c as int);
        assert(self.order.no_duplicates());
        lemma_filter_kept(self.order, p);
        self.order.lemma_filter_len(p);
        assert forall|k: int| 0 <= k < self.unselected().len() implies #[trigger] self.unselected()[k]
            < self.problem.n() by {
            assert(self.order.contains(self.unselected()[k]));
        }
        assert forall|c: int| 0 <= c < self.problem.n() && #[trigger] self.undecided(c) implies self.unselected().contains(
            c as usize,
        ) by {
            let k = model::position_in_order(self.order, self.problem.n(), c);
            assert(p(self.order[k]));
        }
    }

    /// Deciding an undecided candidate takes it out of the list.
    pub proof fn unselected_without(self, next: SelectionState, c: usize)
        requires
            self.wf(),
            next.problem == self.problem,
            next.order == self.order,
            next.selected.len() == self.selected.len(),
            next.banned.len() == self.banned.len(),
            forall|d: int|
                0 <= d < self.problem.n() ==> #[trigger] next.undecided(d) == (self.undecided(d)
                    && d != c),
        ensures
            next.unselected() == self.unselected().filter(|d: usize| d != c),
    {
        let p = |d: usize| self.undecided(d as int);
        let q = |d: usize| d != c;
        let both = |d: usize| p(d) && q(d);
        lemma_filter_twice(self.order, p, q, both);
        assert forall|i: int| 0 <= i < self.order.len() implies (|d: usize|
            next.undecided(d as int))(#[trigger] self.order[i]) == both(self.order[i]) by {
            assert(self.order[i] < self.problem.n());
            assert(next.undecided(self.order[i] as int) == (self.undecided(self.order[i] as int)
                && self.order[i] as int != c));
        }
        lemma_filter_ext(self.order, |d: usize| next.undecided(d as int), both);
    }

    /// Selecting the first undecided candidate leaves the others, in the same order.
    pub proof fn unselected_after_first(self)
        requires
            self.wf(),
            self.unselected().len() > 0,
        ensures
            self.select(self.unselected()[0] as int).unselected() == self.unselected().skip(1),
    {
        let u = self.unselected();
        let c = u[0];
        self.unselected_lists();
        self.unselected_without(self.select(c as int), c);
        let q = |d: usize| d != c;
        assert(u =~= seq![c] + u.skip(1));
        Seq::filter_distributes_over_add(seq![c], u.skip(1), q);
        seq![c].lemma_all_neg_filter_empty(q);
        assert forall|i: int| 0 <= i < u.skip(1).len() implies q(#[trigger] u.skip(1)[i]) by {
            assert(u[i + 1] != u[0]);
        }
        lemma_filter_all(u.skip(1), q);
        assert(seq![c].filter(q) + u.skip(1) =~= u.skip(1));
    }

    /// The state after the first `k` undecided candidates are selected.
    pub open spec fn taking(self, k: int) -> SelectionState {
        SelectionState {
            selected: Seq::new(
                self.selected.len(),
                |c: int| self.selected[c] || self.unselected().take(k).contains(c as usize),
            ),
            ..self
        }
    }

    /// Taking no candidate changes nothing.
    pub proof fn taking_none(self)
        ensures
            self.taking(0) == self,
    {
        assert(self.taking(0).selected =~= self.selected);
    }

    /// Taking more candidates selects more.
    pub proof fn taking_grows(self, k: int, j: int)
        requires
            0 <= k <= j <= self.unselected().len(),
        ensures
            bitset::subset(self.taking(k).selected, self.taking(j).selected),
    {
        let (less, more) = (self.unselected().take(k), self.unselected().take(j));
        assert forall|c: usize| less.contains(c) implies #[trigger] more.contains(c) by {
            let i = choose|i: int| 0 <= i < less.len() && less[i] == c;
            assert(more[i] == c);
        }
    }

    /// Taking one candidate more selects the next one of the list, and leaves those after it.
    pub proof fn taking_next(self, k: int)
        requires
            self.wf(),
            0 <= k < self.unselected().len(),
        ensures
            self.taking(k + 1) == self.taking(k).select(self.unselected()[k] as int),
            self.taking(k).wf(),
    {
        let u = self.unselected();
        self.unselected_lists();
        let s = self.taking(k).selected;
        let t = self.taking(k + 1).selected;
        assert forall|c: int| 0 <= c < self.selected.len() implies t[c] == s.update(
            u[k] as int,
            true,
        )[c] by {
            if u.take(k).contains(c as usize) {
                let j = choose|j: int| 0 <= j < k && u.take(k)[j] == c as usize;
                assert(u.take(k + 1)[j] == c as usize);
            }
            if u.take(k + 1).contains(c as usize) {
                let more = u.take(k + 1);
                let j = choose|j: int| 0 <= j < more.len() && more[j] == c as usize;
                if j < k {
                    assert(u.take(k)[j] == c as usize);
                }
            }
            if c == u[k] {
                assert(u.take(k + 1)[k] == c as usize);
            }
        }
        assert(t =~= s.update(u[k] as int, true));
    }

    /// After `k` candidates are taken, those after them in the list are left.
    pub proof fn taking_leaves(self, k: int)
        requires
            self.wf(),
            0 <= k <= self.unselected().len(),
        ensures
            self.taking(k).unselected() == self.unselected().skip(k),
            self.taking(k).wf(),
        decreases k,
    {
        let u = self.unselected();
        if k == 0 {
            self.taking_none();
            assert(u.skip(0) =~= u);
        } else {
            self.taking_leaves(k - 1);
            self.taking_next(k - 1);
            let before = self.taking(k - 1);
            assert(u.skip(k - 1)[0] == u[k - 1]);
            before.unselected_after_first();
            assert(u.skip(k - 1).skip(1) =~= u.skip(k));
        }
    }

    /// Taking candidates in two goes is taking them in one.
    pub proof fn taking_more(self, k: int, j: int)
        requires
            self.wf(),
            0 <= k,
            0 <= j,
            k + j <= self.unselected().len(),
        ensures
            self.taking(k).taking(j) == self.taking(k + j),
        decreases j,
    {
        self.taking_leaves(k);
        if j == 0 {
            self.taking(k).taking_none();
        } else {
            self.taking_more(k, j - 1);
            self.taking(k).taking_next(j - 1);
            self.taking_next(k + j - 1);
        }
    }

    /// Once all undecided candidates are taken, none is left.
    pub proof fn taking_all(self)
        requires
            self.wf(),
        ensures
            self.taking(self.unselected().len() as int).unselected().len() == 0,
            self.taking(self.unselected().len() as int).selected == Seq::new(
                self.selected.len(),
                |c: int| self.selected[c] || !self.banned[c],
            ),
    {
        let u = self.unselected();
        self.taking_leaves(u.len() as int);
        self.unselected_lists();
        assert(u.take(u.len() as int) =~= u);
        let all = self.taking(u.len() as int).selected;
        assert forall|c: int| 0 <= c < self.selected.len() implies all[c] == (self.selected[c]
            || !self.banned[c]) by {
            if u.contains(c as usize) {
                let k = choose|k: int| 0 <= k < u.len() && u[k] == c as usize;
                assert(self.undecided(u[k] as int));
            }
            if !self.selected[c] && !self.banned[c] {
                assert(self.undecided(c));
            }
        }
        assert(all =~= Seq::new(
            self.selected.len(),
            |c: int| self.selected[c] || !self.banned[c],
        ));
    }
}

} // verus!
