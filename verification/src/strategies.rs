//! Selecting candidates automatically.
use crate::candidate::Candidate;
use crate::coin_selector::CoinSelector;
use crate::drain::{Drain, DrainWeights};
use crate::errors::{InsufficientFunds, SelectError};
use crate::model;
use crate::model::SelectionState;
use vstd::prelude::*;

verus! {

impl<'a> CoinSelector<'a> {
    /// Selects all unselected candidates.
    pub fn select_all(&mut self)
        requires
            old(self).inv(),
        ensures
            final(self).inv(),
            final(self)@ == (SelectionState {
                selected: Seq::new(
                    old(self)@.selected.len(),
                    |c: int| old(self)@.selected[c] || !old(self)@.banned[c],
                ),
                ..old(self)@
            }),
    {
        let ghost state = self@;
        let ghost u = state.unselected();
        let ghost mut k: int = 0;
        proof {
            self.inv_wf();
            state.taking_none();
            state.taking_all();
            state.taking_leaves(0);
        }
        while self.select_next()
            invariant
                self.inv(),
                state.wf(),
                u == state.unselected(),
                0 <= k <= u.len(),
                self@ == state.taking(k),
                self@.unselected() == u.skip(k),
            ensures
                k == u.len(),
            decreases u.len() - k,
        {
            proof {
                state.taking_next(k);
                state.taking_leaves(k + 1);
                k = k + 1;
            }
        }
    }

    /// Selects all unselected candidates that provide more value than it takes to pay for at the
    /// target's feerate.
    pub fn select_all_effective(&mut self)
        requires
            old(self).inv(),
        ensures
            final(self).inv(),
            final(self)@ == old(self)@.with_all_effective(),
    {
        let ghost state = self@;
        let ghost n = state.problem.n();
        let ghost rate = state.problem.target.fee.rate;
        proof {
            self.inv_wf();
            assert(Seq::new(
                n as nat,
                |c: int|
                    state.selected[c] || (exists|j: int| 0 <= j < 0 && #[trigger] state.order[j] == c)
                        && state.undecided(c) && state.problem.candidates[c].effective_at(rate),
            ) =~= state.selected);
        }
        let mut i: usize = 0;
        while i < self.candidate_order().len()
            invariant
                self.inv(),
                state.wf(),
                n == state.problem.n(),
                rate == state.problem.target.fee.rate,
                i <= n,
                self@ == (SelectionState { selected: self@.selected, ..state }),
                self@.selected == Seq::new(
                    n as nat,
                    |c: int|
                        state.selected[c] || (exists|j: int|
                            0 <= j < i && #[trigger] state.order[j] == c) && state.undecided(c)
                            && state.problem.candidates[c].effective_at(rate),
                ),
            decreases n - i,
        {
            let index: usize = self.candidate_order()[i];
            assert(state.order[i as int] < n);
            assert(self@.selected[index as int] ==> state.selected[index as int]) by {
                if self@.selected[index as int] && !state.selected[index as int] {
                    let j = choose|j: int| 0 <= j < i && #[trigger] state.order[j] == index;
                    assert(state.order[j] != state.order[i as int]);
                }
            }
            let ghost before = self@.selected;
            if !self.is_selected(index) && !self.banned().contains(index) && self.candidate(
                index,
            ).is_effective(self.target().fee.rate) {
                self.select(index);
            }
            proof {
                let next = Seq::new(
                    n as nat,
                    |c: int|
                        state.selected[c] || (exists|j: int|
                            0 <= j < i + 1 && #[trigger] state.order[j] == c) && state.undecided(c)
                            && state.problem.candidates[c].effective_at(rate),
                );
                assert forall|c: int| 0 <= c < n implies self@.selected[c] == next[c] by {
                    if before[c] && !state.selected[c] {
                        let j = choose|j: int| 0 <= j < i && #[trigger] state.order[j] == c;
                        assert(state.order[j] == c);
                    }
                    if c == index {
                        assert(state.order[i as int] == c);
                    }
                    if next[c] && !state.selected[c] && c != index {
                        let j = choose|j: int| 0 <= j < i + 1 && #[trigger] state.order[j] == c;
                        assert(j < i);
                        assert(before[c]);
                    }
                }
                assert(self@.selected =~= next);
            }
            i = i + 1;
        }
        proof {
            assert forall|c: int| 0 <= c < n implies self@.selected[c]
                == state.with_all_effective().selected[c] by {
                let j = model::position_in_order(state.order, n, c);
                assert(state.order[j] == c);
            }
            assert(self@.selected =~= state.with_all_effective().selected);
        }
    }

    /// Whether the candidates can cover the target: the current selection does, or does once every
    /// unselected candidate that is worth more than its weight costs is added.
    ///
    /// The selection is asked first because framing can make an effective candidate lower the
    /// excess: the first segwit input adds the witness header. The weight limit of the target plays
    /// no part. With unconfirmed ancestors this is a heuristic that can err either way.
    pub fn is_fundable(&self) -> (r: bool)
        requires
            self.inv(),
            self@.problem.fits(Drain::spec_none()),
        ensures
            r == self@.fundable(),
    {
        if self.is_funded() {
            return true;
        }
        let mut test: CoinSelector<'a> = self.clone();
        test.select_all_effective();
        test.is_funded()
    }

    /// Selects candidates in order until the target is met.
    ///
    /// Fails with the missing value if the candidates cannot cover the target, and if the selection
    /// that covers it is too heavy. Another selection might still fit the weight limit.
    pub fn select_until_target_met(&mut self) -> (r: Result<(), SelectError>)
        requires
            old(self).inv(),
            old(self)@.problem.fits(Drain::spec_none()),
        ensures
            final(self).inv(),
            exists|k: int|
                {
                    let p = old(self)@.problem;
                    let none = Drain::spec_none();
                    &&& 0 <= k <= old(self)@.unselected().len()
                    &&& final(self)@ == #[trigger] old(self)@.taking(k)
                    &&& forall|j: int|
                        0 <= j < k ==> !p.funded(#[trigger] old(self)@.taking(j).selected, none)
                    &&& match r {
                        Ok(()) => p.funded(final(self)@.selected, none) && p.within_max_weight(
                            final(self)@.selected,
                            none.weights,
                        ),
                        Err(SelectError::InsufficientFunds(e)) => {
                            &&& k == old(self)@.unselected().len()
                            &&& !p.funded(final(self)@.selected, none)
                            &&& e.missing == -p.excess(final(self)@.selected, none)
                        },
                        Err(SelectError::MaxWeightExceeded) => p.funded(
                            final(self)@.selected,
                            none,
                        ) && !p.within_max_weight(final(self)@.selected, none.weights),
                    }
                },
    {
        let ghost state = self@;
        let ghost u = state.unselected();
        let ghost mut k: int = 0;
        proof {
            self.inv_wf();
            state.taking_none();
            state.taking_leaves(0);
        }
        while !self.is_funded()
            invariant
                self.inv(),
                state.wf(),
                state.problem.fits(Drain::spec_none()),
                u == state.unselected(),
                0 <= k <= u.len(),
                self@ == state.taking(k),
                self@.unselected() == u.skip(k),
                forall|j: int|
                    0 <= j < k ==> !state.problem.funded(
                        #[trigger] state.taking(j).selected,
                        Drain::spec_none(),
                    ),
                state == old(self)@,
            decreases u.len() - k,
        {
            if !self.select_next() {
                assert(self@ == state.taking(k));
                return Err(
                    SelectError::InsufficientFunds(InsufficientFunds { missing: self.missing() }),
                );
            }
            proof {
                state.taking_next(k);
                state.taking_leaves(k + 1);
                k = k + 1;
            }
        }
        assert(self@ == state.taking(k));
        if !self.is_within_max_weight(DrainWeights::none()) {
            return Err(SelectError::MaxWeightExceeded);
        }
        Ok(())
    }

    /// Selects candidates in order until a predicate is satisfied. `None` if it is not satisfied
    /// once all are selected.
    #[must_use]
    #[verifier::loop_isolation(false)]
    pub fn select_until(&mut self, mut predicate: impl FnMut(&CoinSelector<'a>) -> bool) -> (r:
        Option<()>)
        requires
            old(self).inv(),
            forall|cs: &CoinSelector<'a>|
                cs.inv() && cs@.problem == old(self)@.problem ==> #[trigger] call_requires(
                    predicate,
                    (cs,),
                ),
        ensures
            final(self).inv(),
            exists|k: int|
                {
                    &&& 0 <= k <= old(self)@.unselected().len()
                    &&& final(self)@ == #[trigger] old(self)@.taking(k)
                    &&& forall|j: int|
                        0 <= j < k ==> answered(predicate, #[trigger] old(self)@.taking(j), false)
                    &&& r is Some ==> answered(predicate, final(self)@, true)
                    &&& r is None ==> k == old(self)@.unselected().len() && answered(
                        predicate,
                        final(self)@,
                        false,
                    )
                },
    {
        let ghost state = self@;
        let ghost asked = predicate;
        let ghost u = state.unselected();
        let ghost mut k: int = 0;
        proof {
            self.inv_wf();
            state.taking_none();
            state.taking_leaves(0);
        }
        loop
            invariant
                predicate == asked,
                self.inv(),
                state.wf(),
                state == old(self)@,
                forall|cs: &CoinSelector<'a>|
                    cs.inv() && cs@.problem == state.problem ==> #[trigger] call_requires(
                        predicate,
                        (cs,),
                    ),
                u == state.unselected(),
                0 <= k <= u.len(),
                self@ == state.taking(k),
                self@.unselected() == u.skip(k),
                forall|j: int|
                    0 <= j < k ==> answered(predicate, #[trigger] state.taking(j), false),
            decreases u.len() - k,
        {
            let ghost here = *self;
            let satisfied: bool = predicate(&*self);
            assert(call_ensures(predicate, (&here,), satisfied));
            assert(answered(predicate, self@, satisfied));
            if satisfied {
                assert(self@ == state.taking(k));
                return Some(());
            }
            if !self.select_next() {
                assert(self@ == state.taking(k));
                return None;
            }
            proof {
                state.taking_next(k);
                state.taking_leaves(k + 1);
                k = k + 1;
            }
        }
    }

    /// Shuffles the candidates with the given draws, by the algorithm of Fisher and Yates: draw by
    /// draw, the last position not yet settled is swapped with the one that the draw picks.
    pub fn shuffle_with(&mut self, draws: &Vec<u64>)
        requires
            old(self).inv(),
            draws@.len() + 1 >= old(self)@.problem.n(),
        ensures
            final(self).inv(),
            final(self)@ == (SelectionState {
                order: shuffled(old(self)@.order, draws@, old(self)@.problem.n() - 1),
                ..old(self)@
            }),
    {
        let ghost state = self@;
        let n: usize = self.problem().len();
        let mut order: Vec<usize> = Vec::new();
        proof {
            self.inv_wf();
        }
        let mut c: usize = 0;
        while c < n
            invariant
                state == self@,
                state.wf(),
                n == state.problem.n(),
                c <= n,
                order@ == state.order.take(c as int),
            decreases n - c,
        {
            order.push(self.candidate_order()[c]);
            proof {
                assert(order@ =~= state.order.take(c + 1));
            }
            c = c + 1;
        }
        proof {
            assert(order@ =~= state.order);
        }
        let mut i: usize = n;
        while i > 1
            invariant
                state == self@,
                state.wf(),
                n == state.problem.n(),
                i <= n,
                n > 0 ==> i >= 1,
                draws@.len() + 1 >= n,
                order@ == shuffled(state.order, draws@, n - i),
                model::is_order(order@, n as int),
            decreases i,
        {
            let ghost before = order@;
            let j: usize = (draws[n - i] % (i as u64)) as usize;
            assert(0 <= j < i);
            let last: usize = order[i - 1];
            let picked: usize = order[j];
            order.set(i - 1, picked);
            order.set(j, last);
            proof {
                assert(order@ =~= swapped(before, i - 1, j as int));
                swap_keeps_order(before, n as int, i - 1, j as int);
            }
            i = i - 1;
        }
        self.set_candidate_order(order);
    }

    /// Shuffles the candidates by the algorithm of Fisher and Yates. `rng` should yield uniform
    /// numbers.
    #[verifier::loop_isolation(false)]
    pub fn shuffle_candidates(&mut self, mut rng: impl FnMut() -> u64)
        requires
            old(self).inv(),
            call_requires(rng, ()),
        ensures
            final(self).inv(),
            exists|draws: Seq<u64>|
                {
                    &&& draws.len() == model::max(old(self)@.problem.n() - 1, 0)
                    &&& forall|k: int|
                        0 <= k < draws.len() ==> call_ensures(rng, (), #[trigger] draws[k])
                    &&& final(self)@ == (SelectionState {
                        order: #[trigger] shuffled(
                            old(self)@.order,
                            draws,
                            old(self)@.problem.n() - 1,
                        ),
                        ..old(self)@
                    })
                },
    {
        let n: usize = self.problem().len();
        let ghost asked = rng;
        let mut draws: Vec<u64> = Vec::new();
        while draws.len() + 1 < n
            invariant
                rng == asked,
                call_requires(rng, ()),
                draws@.len() <= model::max(n - 1, 0),
                forall|k: int| 0 <= k < draws@.len() ==> call_ensures(rng, (), #[trigger] draws@[k]),
            decreases n - draws@.len(),
        {
            let draw: u64 = rng();
            draws.push(draw);
        }
        self.shuffle_with(&draws);
    }

    /// Selects candidates in random order until the change would be at least `change_lower`.
    ///
    /// This does not minimize fees: it produces a change output of a healthy size. Candidates are
    /// shuffled by `rng`, which should yield uniform numbers; those that are selected already are
    /// kept. The change comes out random because the last candidate added decides it.
    ///
    /// Returns the drain to attach, whose value is the achieved change. It stops as soon as the
    /// selection with the drain is too heavy. The error tells the missing value if selecting all
    /// candidates does not cover the target and `change_lower` at any point, and otherwise that the
    /// selection is too heavy.
    pub fn select_srd(
        &mut self,
        drain_weights: DrainWeights,
        change_lower: u64,
        rng: impl FnMut() -> u64,
    ) -> (r: Result<Drain, SelectError>)
        requires
            old(self).inv(),
            old(self)@.problem.fits((Drain { weights: drain_weights, value: 0 })),
            change_lower <= i64::MAX,
            call_requires(rng, ()),
        ensures
            final(self).inv(),
            exists|draws: Seq<u64>|
                {
                    &&& draws.len() == model::max(old(self)@.problem.n() - 1, 0)
                    &&& forall|k: int|
                        0 <= k < draws.len() ==> call_ensures(rng, (), #[trigger] draws[k])
                    &&& taken_until_change(
                        (SelectionState {
                            order: #[trigger] shuffled(
                                old(self)@.order,
                                draws,
                                old(self)@.problem.n() - 1,
                            ),
                            ..old(self)@
                        }),
                        final(self)@,
                        drain_weights,
                        change_lower as int,
                        r,
                    )
                },
    {
        self.shuffle_candidates(rng);
        self.select_until_change(drain_weights, change_lower)
    }

    /// Selects candidates in order until the change would be at least `change_lower`. See
    /// [`select_srd`](Self::select_srd).
    pub fn select_until_change(&mut self, drain_weights: DrainWeights, change_lower: u64) -> (r:
        Result<Drain, SelectError>)
        requires
            old(self).inv(),
            old(self)@.problem.fits((Drain { weights: drain_weights, value: 0 })),
            change_lower <= i64::MAX,
        ensures
            final(self).inv(),
            taken_until_change(
                old(self)@,
                final(self)@,
                drain_weights,
                change_lower as int,
                r,
            ),
    {
        let ghost state = self@;
        let ghost u = state.unselected();
        let ghost mut k: int = 0;
        let ghost drain = Drain { weights: drain_weights, value: 0 };
        proof {
            self.inv_wf();
            state.taking_none();
            state.taking_leaves(0);
        }
        loop
            invariant
                self.inv(),
                state == old(self)@,
                state.wf(),
                drain == (Drain { weights: drain_weights, value: 0 }),
                state.problem.fits(drain),
                change_lower <= i64::MAX,
                u == state.unselected(),
                0 <= k <= u.len(),
                self@ == state.taking(k),
                self@.unselected() == u.skip(k),
                forall|j: int|
                    0 <= j < k ==> !change_settled(
                        #[trigger] state.taking(j),
                        drain_weights,
                        change_lower as int,
                    ),
            decreases u.len() - k,
        {
            let is_within_max_weight: bool = self.is_within_max_weight(drain_weights);
            let excess: i64 = self.excess(Drain { weights: drain_weights, value: 0 });
            if excess >= change_lower as i64 || !is_within_max_weight {
                assert(self@ == state.taking(k));
                if is_within_max_weight {
                    return Ok(Drain { weights: drain_weights, value: excess as u64 });
                }
                proof {
                    assert forall|j: int| 0 <= j <= u.len() - k implies #[trigger] self@.taking(j)
                        == state.taking(k + j) by {
                        state.taking_more(k, j);
                    }
                }
                return match self.missing_for_change(drain_weights, change_lower) {
                    None => {
                        proof {
                            let j = choose|j: int|
                                0 <= j <= u.len() - k && change_reached(
                                    #[trigger] self@.taking(j),
                                    drain_weights,
                                    change_lower as int,
                                );
                            assert(change_reached(
                                state.taking(k + j),
                                drain_weights,
                                change_lower as int,
                            ));
                        }
                        Err(SelectError::MaxWeightExceeded)
                    },
                    Some(missing) => {
                        proof {
                            assert forall|j: int| 0 <= j <= u.len() implies !change_reached(
                                #[trigger] state.taking(j),
                                drain_weights,
                                change_lower as int,
                            ) by {
                                if j >= k {
                                    assert(self@.taking(j - k) == state.taking(k + (j - k)));
                                }
                            }
                            assert(self@.taking(u.len() - k) == state.taking(k + (u.len() - k)));
                        }
                        Err(SelectError::InsufficientFunds(InsufficientFunds { missing }))
                    },
                };
            }
            if !self.select_next() {
                assert(self@ == state.taking(k));
                assert(k == u.len());
                let missing: u64 = (change_lower as i128 - excess as i128) as u64;
                return Err(SelectError::InsufficientFunds(InsufficientFunds { missing }));
            }
            proof {
                state.taking_next(k);
                state.taking_leaves(k + 1);
                k = k + 1;
            }
        }
    }

    /// By how much the change falls short of `change_lower` once all candidates are selected, or
    /// `None` if it is that large at some point while they are selected in order.
    fn missing_for_change(&self, drain_weights: DrainWeights, change_lower: u64) -> (r: Option<u64>)
        requires
            self.inv(),
            self@.problem.fits((Drain { weights: drain_weights, value: 0 })),
            change_lower <= i64::MAX,
        ensures
            ({
                let n = self@.unselected().len() as int;
                let lower = change_lower as int;
                match r {
                    None => exists|j: int|
                        0 <= j <= n && change_reached(
                            #[trigger] self@.taking(j),
                            drain_weights,
                            lower,
                        ),
                    Some(missing) => {
                        &&& forall|j: int|
                            0 <= j <= n ==> !change_reached(
                                #[trigger] self@.taking(j),
                                drain_weights,
                                lower,
                            )
                        &&& missing == lower - self@.problem.excess(
                            self@.taking(n).selected,
                            Drain { weights: drain_weights, value: 0 },
                        )
                    },
                }
            }),
    {
        let ghost state = self@;
        let ghost u = state.unselected();
        let ghost mut k: int = 0;
        let mut more: CoinSelector<'a> = self.clone();
        proof {
            self.inv_wf();
            state.taking_none();
            state.taking_leaves(0);
        }
        loop
            invariant
                more.inv(),
                state == self@,
                state.wf(),
                state.problem.fits((Drain { weights: drain_weights, value: 0 })),
                change_lower <= i64::MAX,
                u == state.unselected(),
                0 <= k <= u.len(),
                more@ == state.taking(k),
                more@.unselected() == u.skip(k),
                forall|j: int|
                    0 <= j < k ==> !change_reached(
                        #[trigger] state.taking(j),
                        drain_weights,
                        change_lower as int,
                    ),
            decreases u.len() - k,
        {
            let excess: i64 = more.excess(Drain { weights: drain_weights, value: 0 });
            if excess >= change_lower as i64 {
                assert(change_reached(state.taking(k), drain_weights, change_lower as int));
                return None;
            }
            if !more.select_next() {
                assert(k == u.len());
                return Some((change_lower as i128 - excess as i128) as u64);
            }
            proof {
                state.taking_next(k);
                state.taking_leaves(k + 1);
                k = k + 1;
            }
        }
    }

    /// A way to select candidates one by one.
    pub fn select_iter(self) -> (r: SelectIter<'a>)
        requires
            self.inv(),
        ensures
            r.inv(),
            r@ == self@,
    {
        SelectIter { cs: self }
    }
}

/// The order with what stands at `i` and `j` swapped.
pub open spec fn swapped(order: Seq<usize>, i: int, j: int) -> Seq<usize> {
    order.update(i, order[j]).update(j, order[i])
}

/// Swapping two positions of an order leaves an order.
pub proof fn swap_keeps_order(order: Seq<usize>, n: int, i: int, j: int)
    requires
        model::is_order(order, n),
        0 <= i < n,
        0 <= j < n,
    ensures
        model::is_order(swapped(order, i, j), n),
{
    let after = swapped(order, i, j);
    assert forall|a: int, b: int| 0 <= a < b < n implies #[trigger] after[a] != #[trigger] after[b] by {
        let from = |k: int| if k == i { j } else if k == j { i } else { k };
        let (x, y) = (from(a), from(b));
        assert(after[a] == order[x]);
        assert(after[b] == order[y]);
        if x < y {
            assert(order[x] != order[y]);
        } else {
            assert(order[y] != order[x]);
        }
    }
    assert forall|k: int| 0 <= k < n implies #[trigger] after[k] < n by {
        assert(order[i] < n && order[j] < n && order[k] < n);
    }
}

/// The order after the first `k` draws of a shuffle.
pub open spec fn shuffled(order: Seq<usize>, draws: Seq<u64>, k: int) -> Seq<usize>
    decreases k,
{
    if k <= 0 {
        order
    } else {
        let left = order.len() - (k - 1);
        swapped(shuffled(order, draws, k - 1), left - 1, draws[k - 1] as int % left)
    }
}

/// Whether the change of this state would be large enough.
pub open spec fn change_reached(
    state: SelectionState,
    drain_weights: DrainWeights,
    change_lower: int,
) -> bool {
    state.problem.excess(state.selected, Drain { weights: drain_weights, value: 0 })
        >= change_lower
}

/// Whether selecting stops at this state: the change is large enough, or the transaction too heavy.
pub open spec fn change_settled(
    state: SelectionState,
    drain_weights: DrainWeights,
    change_lower: int,
) -> bool {
    ||| change_reached(state, drain_weights, change_lower)
    ||| !state.problem.within_max_weight(state.selected, drain_weights)
}

/// What selecting candidates in order until the change is large enough leads to.
pub open spec fn taken_until_change(
    before: SelectionState,
    after: SelectionState,
    drain_weights: DrainWeights,
    change_lower: int,
    r: Result<Drain, SelectError>,
) -> bool {
    exists|k: int|
        {
            let p = before.problem;
            let excess = p.excess(after.selected, Drain { weights: drain_weights, value: 0 });
            let within = p.within_max_weight(after.selected, drain_weights);
            &&& 0 <= k <= before.unselected().len()
            &&& after == #[trigger] before.taking(k)
            &&& forall|j: int|
                0 <= j < k ==> !change_settled(
                    #[trigger] before.taking(j),
                    drain_weights,
                    change_lower,
                )
            &&& match r {
                Ok(drain) => {
                    &&& excess >= change_lower
                    &&& within
                    &&& drain.weights == drain_weights
                    &&& drain.value == excess
                },
                Err(SelectError::InsufficientFunds(e)) => {
                    let n = before.unselected().len() as int;
                    &&& k == n || !within
                    &&& forall|j: int|
                        0 <= j <= n ==> !change_reached(
                            #[trigger] before.taking(j),
                            drain_weights,
                            change_lower,
                        )
                    &&& e.missing == change_lower - p.excess(
                        before.taking(n).selected,
                        Drain { weights: drain_weights, value: 0 },
                    )
                },
                Err(SelectError::MaxWeightExceeded) => {
                    &&& !within
                    &&& exists|j: int|
                        0 <= j <= before.unselected().len() && change_reached(
                            #[trigger] before.taking(j),
                            drain_weights,
                            change_lower,
                        )
                },
            }
        }
}

/// Selects candidates one by one, from either end of the order in which they are taken.
pub struct SelectIter<'a> {
    cs: CoinSelector<'a>,
}

impl<'a> View for SelectIter<'a> {
    type V = SelectionState;

    closed spec fn view(&self) -> SelectionState {
        self.cs@
    }
}

impl<'a> SelectIter<'a> {
    /// Whether the selector that is advanced is consistent.
    pub closed spec fn inv(&self) -> bool {
        self.cs.inv()
    }

    /// Selects the first unselected candidate. Returns the selector after that, the index and the
    /// candidate; `None` when nothing is left.
    pub fn next(&mut self) -> (r: Option<(CoinSelector<'a>, usize, Candidate)>)
        requires
            old(self).inv(),
        ensures
            final(self).inv(),
            r is None <==> old(self)@.unselected().len() == 0,
            r is None ==> final(self)@ == old(self)@,
            r matches Some((cs, index, candidate)) ==> {
                &&& index == old(self)@.unselected()[0]
                &&& candidate == old(self)@.problem.candidates[index as int]
                &&& final(self)@ == old(self)@.select(index as int)
                &&& cs.inv()
                &&& cs@ == final(self)@
            },
    {
        let list: Vec<(usize, Candidate)> = self.cs.unselected();
        if list.len() == 0 {
            return None;
        }
        let (index, candidate) = list[0];
        proof {
            self.cs.inv_wf();
            self.cs@.unselected_lists();
            assert(list@[0] == (
                self.cs@.unselected()[0],
                self.cs@.problem.candidates[self.cs@.unselected()[0] as int],
            ));
        }
        self.cs.select(index);
        Some((self.cs.clone(), index, candidate))
    }

    /// Selects the last unselected candidate. Returns the selector after that, the index and the
    /// candidate; `None` when nothing is left.
    pub fn next_back(&mut self) -> (r: Option<(CoinSelector<'a>, usize, Candidate)>)
        requires
            old(self).inv(),
        ensures
            final(self).inv(),
            r is None <==> old(self)@.unselected().len() == 0,
            r is None ==> final(self)@ == old(self)@,
            r matches Some((cs, index, candidate)) ==> {
                &&& index == old(self)@.unselected().last()
                &&& candidate == old(self)@.problem.candidates[index as int]
                &&& final(self)@ == old(self)@.select(index as int)
                &&& cs.inv()
                &&& cs@ == final(self)@
            },
    {
        let list: Vec<(usize, Candidate)> = self.cs.unselected();
        if list.len() == 0 {
            return None;
        }
        let last: usize = list.len() - 1;
        let (index, candidate) = list[last];
        proof {
            self.cs.inv_wf();
            self.cs@.unselected_lists();
            assert(list@[last as int] == (
                self.cs@.unselected()[last as int],
                self.cs@.problem.candidates[self.cs@.unselected()[last as int] as int],
            ));
        }
        self.cs.select(index);
        Some((self.cs.clone(), index, candidate))
    }
}

/// Whether the predicate can answer `answer` about a selector in state `state`.
pub open spec fn answered<'a, F: FnMut(&CoinSelector<'a>) -> bool>(
    predicate: F,
    state: SelectionState,
    answer: bool,
) -> bool {
    exists|cs: &CoinSelector<'a>| cs@ == state && #[trigger] call_ensures(predicate, (cs,), answer)
}

} // verus!
