//! The order in which a selector takes its candidates.
use crate::candidate::Candidate;
use crate::coin_selector::CoinSelector;
use crate::model;
use crate::model::SelectionState;
use crate::sort;
use core::cmp::Ordering;
use vstd::prelude::*;
use vstd::std_specs::cmp::OrdSpec;

verus! {

impl SelectionState {
    /// The candidate that is taken at position `k`, with its index.
    pub open spec fn item(self, k: usize) -> (usize, Candidate) {
        (self.order[k as int], self.problem.candidates[self.order[k as int] as int])
    }

    /// Whether `new` differs from this state only in its order, which takes what stood at the given
    /// positions one after the other.
    pub open spec fn reordered(self, new: SelectionState, positions: Seq<usize>) -> bool {
        &&& sort::permutes(positions, 0, self.problem.n())
        &&& new == (SelectionState {
            order: Seq::new(positions.len(), |k: int| self.order[positions[k] as int]),
            ..self
        })
    }

    /// Taking what stands at permuted positions names each candidate once again.
    pub proof fn permuted_order(self, positions: Seq<usize>)
        requires
            self.wf(),
            sort::permutes(positions, 0, self.problem.n()),
        ensures
            model::is_order(
                Seq::new(positions.len(), |k: int| self.order[positions[k] as int]),
                self.problem.n(),
            ),
    {
        let order = Seq::new(positions.len(), |k: int| self.order[positions[k] as int]);
        assert forall|j: int, k: int| 0 <= j < k < order.len() implies #[trigger] order[j]
            != #[trigger] order[k] by {
            assert(positions[j] != positions[k]);
            let (p, q) = (positions[j] as int, positions[k] as int);
            if p < q {
                assert(self.order[p] != self.order[q]);
            } else {
                assert(self.order[q] != self.order[p]);
            }
        }
    }

    /// Whether of the candidates at positions `p` and `q` the first ranks strictly before the
    /// second by descending value per weight unit, ties broken by descending value.
    pub open spec fn ranks_before(self, p: usize, q: usize) -> bool {
        Candidate::ranks_before(self.item(p).1, self.item(q).1)
    }

    /// Descending value per weight unit, ties broken by descending value, is a strict weak order.
    pub proof fn rank_is_weak_order(self)
        ensures
            sort::weakly_orders(|p: usize, q: usize| self.ranks_before(p, q), self.problem.n()),
    {
        let before = |p: usize, q: usize| self.ranks_before(p, q);
        let n = self.problem.n();
        assert forall|p: usize, q: usize| p < n && q < n && #[trigger] before(p, q) implies !before(
            q,
            p,
        ) by {}
        assert forall|p: usize, q: usize, r: usize|
            p < n && q < n && r < n && !#[trigger] before(q, p) && !#[trigger] before(r, q) implies !before(
            r,
            p,
        ) by {
            candidate_rank_transitive(self.item(p).1, self.item(q).1, self.item(r).1);
        }
    }
}

/// If `b` does not rank before `a` and `c` not before `b`, then `c` does not rank before `a`.
proof fn candidate_rank_transitive(a: Candidate, b: Candidate, c: Candidate)
    requires
        !Candidate::ranks_before(b, a),
        !Candidate::ranks_before(c, b),
    ensures
        !Candidate::ranks_before(c, a),
{
    if a.weight != 0 && b.weight != 0 && c.weight != 0 {
        let (u, v, w) = (a.value as int, b.value as int, c.value as int);
        let (x, y, z) = (a.weight as int, b.weight as int, c.weight as int);
        // b is at most as dense as a, and c as b.
        assert(v * x <= u * y);
        assert(w * y <= v * z);
        assert(w * x <= u * z) by (nonlinear_arith)
            requires
                v * x <= u * y,
                w * y <= v * z,
                x > 0,
                y > 0,
                z > 0,
        ;
        if w * x == u * z {
            assert(v * x == u * y && w * y == v * z) by (nonlinear_arith)
                requires
                    v * x <= u * y,
                    w * y <= v * z,
                    w * x == u * z,
                    x > 0,
                    y > 0,
                    z > 0,
            ;
        }
    }
}

/// Whether the comparison puts each item of a stable order before the next one: of two items the
/// one that stood earlier comes first unless it compares greater.
pub open spec fn compared<F: Fn((usize, Candidate), (usize, Candidate)) -> Ordering>(
    compare: F,
    state: SelectionState,
    positions: Seq<usize>,
) -> bool {
    forall|i: int, j: int|
        0 <= i && j == i + 1 && j < positions.len() ==> compared_step(
            compare,
            state,
            #[trigger] positions[i],
            #[trigger] positions[j],
        )
}

/// See `compared`.
pub open spec fn compared_step<F: Fn((usize, Candidate), (usize, Candidate)) -> Ordering>(
    compare: F,
    state: SelectionState,
    p: usize,
    q: usize,
) -> bool {
    if p < q {
        ||| call_ensures(compare, (state.item(p), state.item(q)), Ordering::Less)
        ||| call_ensures(compare, (state.item(p), state.item(q)), Ordering::Equal)
    } else {
        call_ensures(compare, (state.item(q), state.item(p)), Ordering::Greater)
    }
}

/// Whether the keys of the items of a stable order ascend: of two items the one that stood earlier
/// comes first unless its key is greater.
pub open spec fn keyed<K: Ord, F: Fn((usize, Candidate)) -> K>(
    key_fn: F,
    state: SelectionState,
    positions: Seq<usize>,
) -> bool {
    forall|i: int, j: int|
        0 <= i && j == i + 1 && j < positions.len() ==> {
            if #[trigger] positions[i] < #[trigger] positions[j] {
                keys_compared(key_fn, state.item(positions[i]), state.item(positions[j]), false)
            } else {
                keys_compared(key_fn, state.item(positions[j]), state.item(positions[i]), true)
            }
        }
}

/// Whether keys of `x` and `y` can compare so that the first is greater, or is not.
pub open spec fn keys_compared<K: Ord, F: Fn((usize, Candidate)) -> K>(
    key_fn: F,
    x: (usize, Candidate),
    y: (usize, Candidate),
    greater: bool,
) -> bool {
    exists|a: K, b: K| #[trigger]
        call_ensures(key_fn, (x,), a) && #[trigger] call_ensures(key_fn, (y,), b) && (
        K::obeys_cmp_spec() ==> greater == (a.cmp_spec(&b) == Ordering::Greater))
}

impl<'a> CoinSelector<'a> {
    /// The candidate that is taken at `position`, with its index.
    fn item(&self, position: usize) -> (r: (usize, Candidate))
        requires
            self.inv(),
            position < self@.problem.n(),
        ensures
            r == self@.item(position),
    {
        proof {
            self.inv_wf();
        }
        let index: usize = self.candidate_order()[position];
        (index, self.candidate(index))
    }

    /// Takes next what stands at each of `positions`.
    fn reorder(&mut self, positions: &Vec<usize>)
        requires
            old(self).inv(),
            sort::permutes(positions@, 0, old(self)@.problem.n()),
        ensures
            final(self).inv(),
            old(self)@.reordered(final(self)@, positions@),
    {
        let ghost state = self@;
        proof {
            self.inv_wf();
            state.permuted_order(positions@);
        }
        let mut order: Vec<usize> = Vec::new();
        let mut k: usize = 0;
        while k < positions.len()
            invariant
                self@ == state,
                state.wf(),
                sort::permutes(positions@, 0, state.problem.n()),
                k <= positions@.len(),
                order@.len() == k,
                forall|j: int| 0 <= j < k ==> #[trigger] order@[j] == state.order[positions@[j] as int],
            decreases positions@.len() - k,
        {
            assert(positions@[k as int] < state.problem.n());
            order.push(self.candidate_order()[positions[k]]);
            k = k + 1;
        }
        proof {
            assert(order@ =~= Seq::new(
                positions@.len(),
                |k: int| state.order[positions@[k] as int],
            ));
        }
        self.set_candidate_order(order);
    }

    /// Sorts the candidates by descending value per weight unit, ties broken by descending value.
    /// Candidates that rank alike keep their order.
    pub fn sort_candidates_by_descending_value_pwu(&mut self)
        requires
            old(self).inv(),
        ensures
            final(self).inv(),
            exists|positions: Seq<usize>|
                {
                    &&& #[trigger] old(self)@.reordered(final(self)@, positions)
                    &&& sort::in_order(
                        positions,
                        |p: usize, q: usize| old(self)@.ranks_before(p, q),
                    )
                },
    {
        let n: usize = self.problem().len();
        let ghost state = self@;
        let view: &CoinSelector<'a> = &*self;
        let after = |p: usize, q: usize| -> (b: bool)
            requires
                view.inv(),
                p < view@.problem.n(),
                q < view@.problem.n(),
            ensures
                b == view@.ranks_before(q, p),
            {
                let (_, mine) = view.item(p);
                let (_, theirs) = view.item(q);
                theirs.is_ranked_before(&mine)
            };
        let positions: Vec<usize> = sort::stable_order(&after, 0, n);
        proof {
            let before = |p: usize, q: usize| state.ranks_before(p, q);
            state.rank_is_weak_order();
            sort::stable_order_is_sorted(after, before, positions@, n as int);
        }
        self.reorder(&positions);
    }

    /// Sorts the candidates by a comparison that takes each one's index and the [`Candidate`].
    /// Candidates that compare equal keep their order.
    ///
    /// The index of a candidate does not change, only the order in which candidates are taken.
    pub fn sort_candidates_by<F>(&mut self, compare: F) where
        F: Fn((usize, Candidate), (usize, Candidate)) -> Ordering,

        requires
            old(self).inv(),
            forall|p: usize, q: usize|
                p < old(self)@.problem.n() && q < old(self)@.problem.n() ==> #[trigger] call_requires(
                    compare,
                    (old(self)@.item(p), old(self)@.item(q)),
                ),
        ensures
            final(self).inv(),
            exists|positions: Seq<usize>|
                {
                    &&& #[trigger] old(self)@.reordered(final(self)@, positions)
                    &&& compared(compare, old(self)@, positions)
                },
    {
        let n: usize = self.problem().len();
        let ghost state = self@;
        let view: &CoinSelector<'a> = &*self;
        let compare_ref: &F = &compare;
        let after = |p: usize, q: usize| -> (b: bool)
            requires
                view.inv(),
                p < view@.problem.n(),
                q < view@.problem.n(),
                forall|p: usize, q: usize|
                    p < view@.problem.n() && q < view@.problem.n() ==> #[trigger] call_requires(
                        *compare_ref,
                        (view@.item(p), view@.item(q)),
                    ),
            ensures
                b ==> call_ensures(*compare_ref, (view@.item(p), view@.item(q)), Ordering::Greater),
                !b ==> call_ensures(*compare_ref, (view@.item(p), view@.item(q)), Ordering::Less)
                    || call_ensures(*compare_ref, (view@.item(p), view@.item(q)), Ordering::Equal),
            {
                match compare_ref(view.item(p), view.item(q)) {
                    Ordering::Greater => true,
                    Ordering::Less => false,
                    Ordering::Equal => false,
                }
            };
        let positions: Vec<usize> = sort::stable_order(&after, 0, n);
        proof {
            assert forall|i: int, j: int| 0 <= i && j == i + 1 && j < positions@.len() implies compared_step(
                compare,
                state,
                #[trigger] positions@[i],
                #[trigger] positions@[j],
            ) by {
                assert(sort::step(after, positions@[i], positions@[j]));
                assert(positions@[i] < n && positions@[j] < n);
            }
        }
        self.reorder(&positions);
    }

    /// Whether the key of the candidate taken at position `p` is greater than that at `q`.
    fn key_is_greater<F, K>(&self, key_fn: &F, p: usize, q: usize) -> (greater: bool) where
        F: Fn((usize, Candidate)) -> K,
        K: Ord,

        requires
            self.inv(),
            p < self@.problem.n(),
            q < self@.problem.n(),
            call_requires(*key_fn, (self@.item(p),)),
            call_requires(*key_fn, (self@.item(q),)),
        ensures
            keys_compared(*key_fn, self@.item(p), self@.item(q), greater),
    {
        let mine: K = key_fn(self.item(p));
        let theirs: K = key_fn(self.item(q));
        let greater: bool = match mine.cmp(&theirs) {
            Ordering::Greater => true,
            Ordering::Less => false,
            Ordering::Equal => false,
        };
        assert(call_ensures(*key_fn, (self@.item(p),), mine));
        assert(call_ensures(*key_fn, (self@.item(q),), theirs));
        greater
    }

    /// Sorts the candidates by ascending keys, which `key_fn` takes from each one's index and the
    /// [`Candidate`]. Candidates with equal keys keep their order.
    ///
    /// The index of a candidate does not change, only the order in which candidates are taken.
    pub fn sort_candidates_by_key<F, K>(&mut self, key_fn: F) where
        F: Fn((usize, Candidate)) -> K,
        K: Ord,

        requires
            old(self).inv(),
            forall|p: usize|
                p < old(self)@.problem.n() ==> #[trigger] call_requires(
                    key_fn,
                    (old(self)@.item(p),),
                ),
        ensures
            final(self).inv(),
            exists|positions: Seq<usize>|
                {
                    &&& #[trigger] old(self)@.reordered(final(self)@, positions)
                    &&& keyed(key_fn, old(self)@, positions)
                },
    {
        let n: usize = self.problem().len();
        let ghost state = self@;
        let view: &CoinSelector<'a> = &*self;
        let key_ref: &F = &key_fn;
        let after = |p: usize, q: usize| -> (b: bool)
            requires
                view.inv(),
                p < view@.problem.n(),
                q < view@.problem.n(),
                forall|p: usize|
                    p < view@.problem.n() ==> #[trigger] call_requires(*key_ref, (view@.item(p),)),
            ensures
                keys_compared(*key_ref, view@.item(p), view@.item(q), b),
            {
                view.key_is_greater(key_ref, p, q)
            };
        let positions: Vec<usize> = sort::stable_order(&after, 0, n);
        proof {
            assert forall|i: int, j: int| 0 <= i && j == i + 1 && j < positions@.len() implies {
                if #[trigger] positions@[i] < #[trigger] positions@[j] {
                    keys_compared(key_fn, state.item(positions@[i]), state.item(positions@[j]), false)
                } else {
                    keys_compared(key_fn, state.item(positions@[j]), state.item(positions@[i]), true)
                }
            } by {
                assert(sort::step(after, positions@[i], positions@[j]));
                assert(positions@[i] < n && positions@[j] < n);
            }
        }
        self.reorder(&positions);
    }
}

} // verus!
