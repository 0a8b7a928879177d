//! When selecting in order stops, and what a shuffle can lead to.
use crate::candidate::Candidate;
use crate::coin_selector::CoinSelector;
use crate::drain::{Drain, DrainWeights};
use crate::errors::SelectError;
use crate::model;
use crate::model::SelectionState;
use crate::strategies;
use crate::strategies::SelectIter;
use vstd::prelude::*;

verus! {

/// What change would be worth once it has paid for its weight.
pub open spec fn change_worth(state: SelectionState, drain_weights: DrainWeights) -> int {
    let p = state.problem;
    p.value_of(state.selected) - p.target.outputs.value_sum - p.fee_owed(
        state.selected,
        drain_weights,
    )
}

/// Whether the transaction is not too heavy with change.
pub open spec fn change_fits(state: SelectionState, drain_weights: DrainWeights) -> bool {
    state.problem.target.max_weight matches Some(limit) ==> state.problem.tx_weight(
        state.selected,
        drain_weights,
    ) <= limit
}

/// Selecting until change is large enough stops at the first selection at which change is worth
/// `change_lower`, or at which the transaction is too heavy with it. It succeeds exactly if change
/// is worth that much there and fits, and the change is then all that is left. Else it reports by
/// how much all candidates together fall short, if change is never worth that much on the way; and
/// if it is, that the transaction gets too heavy.
pub proof fn selecting_stops_at_the_first_healthy_change(
    before: SelectionState,
    after: SelectionState,
    drain_weights: DrainWeights,
    change_lower: int,
    r: Result<Drain, SelectError>,
) -> (k: int)
    requires
        before.wf(),
        strategies::taken_until_change(before, after, drain_weights, change_lower, r),
    ensures
        0 <= k <= before.unselected().len(),
        after == before.taking(k),
        forall|j: int|
            0 <= j < k ==> change_worth(#[trigger] before.taking(j), drain_weights) < change_lower
                && change_fits(before.taking(j), drain_weights),
        change_worth(after, drain_weights) >= change_lower || !change_fits(after, drain_weights) || k
            == before.unselected().len(),
        r is Ok <==> change_worth(after, drain_weights) >= change_lower && change_fits(
            after,
            drain_weights,
        ),
        match r {
            Ok(drain) => {
                &&& drain.weights == drain_weights
                &&& drain.value == change_worth(after, drain_weights)
            },
            Err(SelectError::InsufficientFunds(e)) => {
                let n = before.unselected().len() as int;
                &&& forall|j: int|
                    0 <= j <= n ==> change_worth(#[trigger] before.taking(j), drain_weights)
                        < change_lower
                &&& e.missing == change_lower - change_worth(before.taking(n), drain_weights)
            },
            Err(SelectError::MaxWeightExceeded) => {
                &&& !change_fits(after, drain_weights)
                &&& exists|j: int|
                    0 <= j <= before.unselected().len() && change_worth(
                        #[trigger] before.taking(j),
                        drain_weights,
                    ) >= change_lower
            },
        },
{
    let empty = Drain { weights: drain_weights, value: 0 };
    let p = before.problem;
    assert forall|j: int|
        change_worth(#[trigger] before.taking(j), drain_weights) == p.excess(
            before.taking(j).selected,
            empty,
        ) && change_fits(before.taking(j), drain_weights) == p.within_max_weight(
            before.taking(j).selected,
            drain_weights,
        ) by {}
    let k = choose|k: int|
        {
            let excess = p.excess(after.selected, empty);
            let within = p.within_max_weight(after.selected, drain_weights);
            &&& 0 <= k <= before.unselected().len()
            &&& after == #[trigger] before.taking(k)
            &&& forall|j: int|
                0 <= j < k ==> !strategies::change_settled(
                    #[trigger] before.taking(j),
                    drain_weights,
                    change_lower,
                )
            &&& match r {
                Ok(drain) => {
                    &&& excess >= change_lower
                    &&& within
                    &&& drain.weights == drain_weights
                    &&& drain.value == excess
                },
                Err(SelectError::InsufficientFunds(e)) => {
                    let n = before.unselected().len() as int;
                    &&& k == n || !within
                    &&& forall|j: int|
                        0 <= j <= n ==> !strategies::change_reached(
                            #[trigger] before.taking(j),
                            drain_weights,
                            change_lower,
                        )
                    &&& e.missing == change_lower - p.excess(before.taking(n).selected, empty)
                },
                Err(SelectError::MaxWeightExceeded) => {
                    &&& !within
                    &&& exists|j: int|
                        0 <= j <= before.unselected().len() && strategies::change_reached(
                            #[trigger] before.taking(j),
                            drain_weights,
                            change_lower,
                        )
                },
            }
        };
    if r is Err && change_worth(after, drain_weights) >= change_lower {
        assert(strategies::change_reached(before.taking(k), drain_weights, change_lower));
    }
    k
}

/// Where two runs from the same selection ask for the same change, they end alike.
pub proof fn selecting_is_determined(
    before: SelectionState,
    drain_weights: DrainWeights,
    change_lower: int,
    after: SelectionState,
    r: Result<Drain, SelectError>,
    other: SelectionState,
    q: Result<Drain, SelectError>,
)
    requires
        before.wf(),
        strategies::taken_until_change(before, after, drain_weights, change_lower, r),
        strategies::taken_until_change(before, other, drain_weights, change_lower, q),
    ensures
        after == other,
        r == q,
{
    let k = selecting_stops_at_the_first_healthy_change(
        before,
        after,
        drain_weights,
        change_lower,
        r,
    );
    let j = selecting_stops_at_the_first_healthy_change(
        before,
        other,
        drain_weights,
        change_lower,
        q,
    );
    if k < j {
        assert(change_fits(before.taking(k), drain_weights));
    }
    if j < k {
        assert(change_fits(before.taking(j), drain_weights));
    }
    if r is Ok {
        let (a, b) = (r->Ok_0, q->Ok_0);
        assert(a.weights == b.weights && a.value == b.value);
    }
}

/// Change is healthy by default from fifty thousand satoshis on.
pub proof fn change_is_healthy_by_default_from()
    ensures
        crate::coin_selector::CHANGE_LOWER == 50_000,
{
}

/// A shuffle leaves an order of the same candidates.
pub proof fn shuffles_leave_an_order(order: Seq<usize>, draws: Seq<u64>, k: int)
    requires
        model::is_order(order, order.len() as int),
        k < order.len() || k <= 0,
        k <= draws.len(),
    ensures
        model::is_order(strategies::shuffled(order, draws, k), order.len() as int),
        strategies::shuffled(order, draws, k).len() == order.len(),
    decreases k,
{
    if k > 0 {
        shuffles_leave_an_order(order, draws, k - 1);
        let left = order.len() - (k - 1);
        strategies::swap_keeps_order(
            strategies::shuffled(order, draws, k - 1),
            order.len() as int,
            left - 1,
            draws[k - 1] as int % left,
        );
    }
}

/// Every order of the candidates can come out of a shuffle: for each there are draws that lead to
/// it, each among as many numbers as there are candidates left to place.
pub proof fn shuffles_reach_every_order(order: Seq<usize>, wanted: Seq<usize>) -> (draws: Seq<u64>)
    requires
        order.len() >= 1,
        order.len() <= usize::MAX,
        order.len() <= u64::MAX,
        model::is_order(order, order.len() as int),
        model::is_order(wanted, order.len() as int),
    ensures
        draws.len() == order.len() - 1,
        forall|i: int| 0 <= i < draws.len() ==> #[trigger] draws[i] < order.len() - i,
        strategies::shuffled(order, draws, order.len() - 1) == wanted,
{
    let n = order.len() as int;
    let draws = shuffled_into(order, wanted, n - 1);
    let out = strategies::shuffled(order, draws, n - 1);
    shuffles_leave_an_order(order, draws, n - 1);
    let at = model::position_in_order(out, n, wanted[0] as int);
    if at > 0 {
        assert(out[at] == wanted[at]);
        assert(wanted[0] != wanted[at]);
    }
    assert(out =~= wanted);
    draws
}

/// Draws that put the last `k` candidates where they are wanted.
proof fn shuffled_into(order: Seq<usize>, wanted: Seq<usize>, k: int) -> (draws: Seq<u64>)
    requires
        order.len() <= usize::MAX,
        order.len() <= u64::MAX,
        model::is_order(order, order.len() as int),
        model::is_order(wanted, order.len() as int),
        0 <= k < order.len(),
    ensures
        draws.len() == k,
        forall|i: int| 0 <= i < k ==> #[trigger] draws[i] < order.len() - i,
        forall|i: int|
            order.len() - k <= i < order.len() ==> #[trigger] strategies::shuffled(
                order,
                draws,
                k,
            )[i] == wanted[i],
    decreases k,
{
    if k == 0 {
        Seq::empty()
    } else {
        let n = order.len() as int;
        let less = shuffled_into(order, wanted, k - 1);
        let so_far = strategies::shuffled(order, less, k - 1);
        shuffles_leave_an_order(order, less, k - 1);
        let left = n - (k - 1);
        let at = model::position_in_order(so_far, n, wanted[left - 1] as int);
        if at >= left {
            assert(so_far[at] == wanted[at]);
            assert(wanted[left - 1] != wanted[at]);
        }
        let draws = less.push(at as u64);
        same_draws_same_shuffle(order, less, draws, k - 1);
        assert(at as int % left == at) by (nonlinear_arith)
            requires
                0 <= at < left,
        ;
        draws
    }
}

proof fn same_draws_same_shuffle(order: Seq<usize>, a: Seq<u64>, b: Seq<u64>, k: int)
    requires
        k <= a.len(),
        k <= b.len(),
        forall|i: int| 0 <= i < k ==> #[trigger] a[i] == b[i],
    ensures
        strategies::shuffled(order, a, k) == strategies::shuffled(order, b, k),
    decreases k,
{
    if k > 0 {
        same_draws_same_shuffle(order, a, b, k - 1);
        assert(a[k - 1] == b[k - 1]);
    }
}

/// Whether `after` is reached from `before` by taking `k` candidates in order, and none of the
/// selections on the way covers the target: `r` is then success exactly if `after` covers it and is
/// not too heavy, and reports what is missing only once all candidates are selected.
pub open spec fn stops_once_the_target_is_met(
    before: SelectionState,
    after: SelectionState,
    r: Result<(), SelectError>,
    k: int,
) -> bool {
    let none = DrainWeights::spec_none();
    let left = change_worth(after, none);
    let fits = change_fits(after, none);
    &&& 0 <= k <= before.unselected().len()
    &&& after == before.taking(k)
    &&& forall|j: int| 0 <= j < k ==> change_worth(#[trigger] before.taking(j), none) < 0
    &&& match r {
        Ok(()) => left >= 0 && fits,
        Err(SelectError::MaxWeightExceeded) => left >= 0 && !fits,
        Err(SelectError::InsufficientFunds(e)) => left < 0 && e.missing == -left && k
            == before.unselected().len(),
    }
}

/// Selecting until the target is met stops at the first selection that covers it.
pub proof fn selecting_stops_once_the_target_is_met<'a, 'b>(
    cs: &'b mut CoinSelector<'a>,
    r: Result<(), SelectError>,
)
    requires
        old(cs).inv(),
        call_ensures(CoinSelector::<'a>::select_until_target_met, (cs,), r),
    ensures
        exists|k: int| stops_once_the_target_is_met(old(cs)@, final(cs)@, r, k),
{
    let before = old(cs)@;
    let after = final(cs)@;
    let p = before.problem;
    let none = Drain::spec_none();
    let k = choose|k: int|
        {
            &&& 0 <= k <= before.unselected().len()
            &&& after == #[trigger] before.taking(k)
            &&& forall|j: int|
                0 <= j < k ==> !p.funded(#[trigger] before.taking(j).selected, none)
            &&& match r {
                Ok(()) => p.funded(after.selected, none) && p.within_max_weight(
                    after.selected,
                    none.weights,
                ),
                Err(SelectError::InsufficientFunds(e)) => {
                    &&& k == before.unselected().len()
                    &&& !p.funded(after.selected, none)
                    &&& e.missing == -p.excess(after.selected, none)
                },
                Err(SelectError::MaxWeightExceeded) => p.funded(after.selected, none)
                    && !p.within_max_weight(after.selected, none.weights),
            }
        };
    assert forall|j: int|
        0 <= j < k implies change_worth(#[trigger] before.taking(j), DrainWeights::spec_none())
        < 0 by {
        assert(!p.funded(before.taking(j).selected, none));
    }
    assert(stops_once_the_target_is_met(before, after, r, k));
}

/// Whether `after` is reached from `before` by taking `k` candidates in order, on none of the
/// selections on the way is change worth `change_lower` or too heavy, and `r` is what this leads
/// to: all that is left as change where it is worth that much and fits; else by how much all
/// candidates together fall short, if change is never worth that much; and if it is, that the
/// transaction gets too heavy.
pub open spec fn stops_at_healthy_change(
    before: SelectionState,
    after: SelectionState,
    drain_weights: DrainWeights,
    change_lower: int,
    r: Result<Drain, SelectError>,
    k: int,
) -> bool {
    let n = before.unselected().len() as int;
    let worth = change_worth(after, drain_weights);
    let fits = change_fits(after, drain_weights);
    &&& 0 <= k <= n
    &&& after == before.taking(k)
    &&& forall|j: int|
        0 <= j < k ==> change_worth(#[trigger] before.taking(j), drain_weights) < change_lower
            && change_fits(before.taking(j), drain_weights)
    &&& r is Ok <==> worth >= change_lower && fits
    &&& r matches Ok(drain) ==> drain.weights == drain_weights && drain.value == worth
    &&& r matches Err(SelectError::InsufficientFunds(e)) ==> {
        &&& forall|j: int|
            0 <= j <= n ==> change_worth(#[trigger] before.taking(j), drain_weights) < change_lower
        &&& e.missing == change_lower - change_worth(before.taking(n), drain_weights)
    }
    &&& r matches Err(SelectError::MaxWeightExceeded) ==> {
        &&& !fits
        &&& exists|j: int|
            0 <= j <= n && change_worth(#[trigger] before.taking(j), drain_weights) >= change_lower
    }
}

/// Selecting in order for change returns what the first healthy change is worth, and selects no
/// more.
pub proof fn healthy_change_is_the_first<'a, 'b>(
    cs: &'b mut CoinSelector<'a>,
    drain_weights: DrainWeights,
    change_lower: u64,
    r: Result<Drain, SelectError>,
)
    requires
        old(cs).inv(),
        call_ensures(
            CoinSelector::<'a>::select_until_change,
            (cs, drain_weights, change_lower),
            r,
        ),
    ensures
        exists|k: int|
            stops_at_healthy_change(
                old(cs)@,
                final(cs)@,
                drain_weights,
                change_lower as int,
                r,
                k,
            ),
{
    old(cs).inv_wf();
    let k = selecting_stops_at_the_first_healthy_change(
        old(cs)@,
        final(cs)@,
        drain_weights,
        change_lower as int,
        r,
    );
    assert(stops_at_healthy_change(
        old(cs)@,
        final(cs)@,
        drain_weights,
        change_lower as int,
        r,
        k,
    ));
}

/// Selecting at random takes candidates in some order until the first healthy change: whatever is
/// drawn, nothing but the order changes besides what is selected, and the change is all that is
/// left.
pub proof fn random_change_is_healthy<'a, 'b, F: FnMut() -> u64>(
    cs: &'b mut CoinSelector<'a>,
    drain_weights: DrainWeights,
    change_lower: u64,
    rng: F,
    r: Result<Drain, SelectError>,
)
    requires
        old(cs).inv(),
        call_ensures(
            CoinSelector::<'a>::select_srd,
            (cs, drain_weights, change_lower, rng),
            r,
        ),
    ensures
        exists|shuffled: SelectionState, k: int|
            {
                &&& shuffled == (SelectionState { order: shuffled.order, ..old(cs)@ })
                &&& model::is_order(shuffled.order, old(cs)@.problem.n())
                &&& #[trigger] stops_at_healthy_change(
                    shuffled,
                    final(cs)@,
                    drain_weights,
                    change_lower as int,
                    r,
                    k,
                )
            },
{
    old(cs).inv_wf();
    let state = old(cs)@;
    let n = state.problem.n();
    let draws = choose|draws: Seq<u64>|
        {
            &&& draws.len() == model::max(n - 1, 0)
            &&& forall|k: int|
                0 <= k < draws.len() ==> call_ensures(rng, (), #[trigger] draws[k])
            &&& strategies::taken_until_change(
                (SelectionState {
                    order: #[trigger] strategies::shuffled(state.order, draws, n - 1),
                    ..state
                }),
                final(cs)@,
                drain_weights,
                change_lower as int,
                r,
            )
        };
    let order = strategies::shuffled(state.order, draws, n - 1);
    shuffles_leave_an_order(state.order, draws, n - 1);
    let shuffled = SelectionState { order, ..state };
    assert(shuffled.wf());
    let k = selecting_stops_at_the_first_healthy_change(
        shuffled,
        final(cs)@,
        drain_weights,
        change_lower as int,
        r,
    );
    assert(stops_at_healthy_change(
        shuffled,
        final(cs)@,
        drain_weights,
        change_lower as int,
        r,
        k,
    ));
}

/// Iterating selects the first candidate that is left, or from the back the last.
pub proof fn iterating_selects_one<'a, 'b>(
    iter: &'b mut SelectIter<'a>,
    back: &'b mut SelectIter<'a>,
    r: Option<(CoinSelector<'a>, usize, Candidate)>,
    q: Option<(CoinSelector<'a>, usize, Candidate)>,
)
    requires
        old(iter).inv(),
        old(back)@ == old(iter)@,
        call_ensures(SelectIter::<'a>::next, (iter,), r),
        call_ensures(SelectIter::<'a>::next_back, (back,), q),
    ensures
        r is Some <==> old(iter)@.unselected().len() > 0,
        q is Some <==> old(iter)@.unselected().len() > 0,
        r matches Some((cs, index, candidate)) ==> {
            &&& index == old(iter)@.unselected()[0]
            &&& candidate == old(iter)@.problem.candidates[index as int]
            &&& cs@.selected == old(iter)@.selected.update(index as int, true)
            &&& final(iter)@ == cs@
        },
        q matches Some((cs, index, candidate)) ==> {
            &&& index == old(iter)@.unselected()[old(iter)@.unselected().len() - 1]
            &&& candidate == old(iter)@.problem.candidates[index as int]
            &&& cs@.selected == old(iter)@.selected.update(index as int, true)
            &&& final(back)@ == cs@
        },
{
}

} // verus!
