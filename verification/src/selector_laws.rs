//! What a coin selector reports, and how a selection that grows by one candidate changes that.
use crate::bitset;
use crate::bitset::Bitset;
use crate::bitset_laws;
use crate::candidate::Candidate;
use crate::coin_selector::CoinSelector;
use crate::drain::{ChangePolicy, Drain, DrainWeights};
use crate::fee_laws;
use crate::feerate::FeeRate;
use crate::model;
use crate::model::SelectionState;
use crate::ordering;
use crate::selection_problem::SelectionProblem;
use crate::strategies;
use crate::strategy_laws;
use crate::weights;
use std::cmp::Ordering;
use vstd::prelude::*;

verus! {

/// A new selector has selected and banned nothing, and takes candidates as they come.
pub proof fn selectors_start_empty<'a>(problem: &'a SelectionProblem, cs: CoinSelector<'a>, c: int)
    requires
        call_ensures(CoinSelector::<'a>::new, (problem,), cs),
        0 <= c < problem@.n(),
        problem@.n() <= usize::MAX,
    ensures
        cs@.problem == problem@,
        cs@.selected.len() == problem@.n() && cs@.banned.len() == problem@.n(),
        !cs@.selected[c] && !cs@.banned[c],
        cs@.order.len() == problem@.n() && cs@.order[c] == c,
{
}

/// Selecting a candidate adds what it is worth, once. It is then selected, and nothing else
/// changes.
pub proof fn selecting_adds_value<'a, 'b>(
    cs: &'b mut CoinSelector<'a>,
    index: usize,
    d: int,
    inserted: bool,
    before: u64,
    after: u64,
)
    requires
        old(cs).inv(),
        index < old(cs)@.problem.n(),
        0 <= d < old(cs)@.problem.n(),
        call_ensures(CoinSelector::<'a>::select, (cs, index), inserted),
        call_ensures(CoinSelector::<'a>::selected_value, (&*old(cs),), before),
        call_ensures(CoinSelector::<'a>::selected_value, (&*final(cs),), after),
    ensures
        inserted <==> !old(cs)@.selected[index as int],
        final(cs)@.selected[d] <==> d == index || old(cs)@.selected[d],
        final(cs)@.banned == old(cs)@.banned,
        final(cs)@.order == old(cs)@.order,
        final(cs)@.problem == old(cs)@.problem,
        after == before + (if inserted {
            old(cs)@.problem.candidates[index as int].value as int
        } else {
            0
        }),
{
    old(cs).inv_wf();
    let state = old(cs)@;
    state.updates_change_one(index as int, d);
    if inserted {
        state.problem.sums_insert(state.selected, index as int);
    } else {
        assert(state.selected.update(index as int, true) =~= state.selected);
    }
}

/// Deselecting, banning and lifting a ban change the one candidate that they are about.
pub proof fn other_updates_change_one<'a, 'b>(
    cs: &'b mut CoinSelector<'a>,
    banned: &'b mut CoinSelector<'a>,
    unbanned: &'b mut CoinSelector<'a>,
    index: usize,
    d: int,
    removed: bool,
)
    requires
        old(cs).inv(),
        old(banned)@ == old(cs)@,
        old(unbanned)@ == old(cs)@,
        index < old(cs)@.problem.n(),
        0 <= d < old(cs)@.problem.n(),
        call_ensures(CoinSelector::<'a>::deselect, (cs, index), removed),
        call_ensures(CoinSelector::<'a>::ban, (banned, index), ()),
        call_ensures(CoinSelector::<'a>::unban, (unbanned, index), ()),
    ensures
        removed <==> old(cs)@.selected[index as int],
        final(cs)@.selected[d] <==> d != index && old(cs)@.selected[d],
        final(cs)@.banned == old(cs)@.banned && final(cs)@.order == old(cs)@.order,
        final(banned)@.banned[d] <==> d == index || old(cs)@.banned[d],
        final(banned)@.selected == old(cs)@.selected && final(banned)@.order == old(cs)@.order,
        final(unbanned)@.banned[d] <==> d != index && old(cs)@.banned[d],
        final(unbanned)@.selected == old(cs)@.selected && final(unbanned)@.order == old(cs)@.order,
{
    old(cs).inv_wf();
    old(cs)@.updates_change_one(index as int, d);
}

/// What is selected and what it holds can be read back.
pub proof fn selections_read_back<'a>(
    cs: &CoinSelector<'a>,
    index: usize,
    selected: bool,
    empty: bool,
    indices: &Bitset,
    banned: &Bitset,
    candidate: Candidate,
)
    requires
        cs.inv(),
        index < cs@.problem.n(),
        call_ensures(CoinSelector::<'a>::is_selected, (cs, index), selected),
        call_ensures(CoinSelector::<'a>::is_empty, (cs,), empty),
        call_ensures(CoinSelector::<'a>::selected_indices, (cs,), indices),
        call_ensures(CoinSelector::<'a>::banned, (cs,), banned),
        call_ensures(CoinSelector::<'a>::candidate, (cs, index), candidate),
    ensures
        selected <==> cs@.selected[index as int],
        empty <==> forall|c: int| 0 <= c < cs@.selected.len() ==> !#[trigger] cs@.selected[c],
        indices@ == cs@.selected,
        banned@ == cs@.banned,
        candidate == cs@.problem.candidates[index as int],
{
    cs.inv_wf();
}

/// A transaction weighs its inputs, its outputs with the bytes that count them, the change, and the
/// eight bytes of version and lock time. It is too heavy only where there is a limit below that.
pub proof fn transactions_weigh_their_parts<'a>(
    cs: &CoinSelector<'a>,
    drain_weights: DrainWeights,
    inputs: u64,
    weight: u64,
    within: bool,
)
    requires
        call_ensures(CoinSelector::<'a>::input_weight, (cs,), inputs),
        call_ensures(CoinSelector::<'a>::weight, (cs, drain_weights), weight),
        call_ensures(CoinSelector::<'a>::is_within_max_weight, (cs, drain_weights), within),
    ensures
        ({
            let outputs = cs@.problem.target.outputs;
            weight == 32 + inputs + outputs.weight_sum + drain_weights.output_weight + 4
                * weights::varint_bytes(outputs.n_outputs + drain_weights.n_outputs)
        }),
        within <==> (cs@.problem.target.max_weight matches Some(limit) ==> weight <= limit),
{
    cs@.problem.transaction_weighs_its_parts(cs@.selected, drain_weights);
    cs@.problem.weight_limit_admits(cs@.selected, drain_weights);
}

/// A candidate more adds its weight to the inputs, the growth of the bytes that count them, and its
/// part of the witness.
pub proof fn inputs_weigh_more_by_one<'a, 'b>(
    cs: &'b mut CoinSelector<'a>,
    index: usize,
    inserted: bool,
    before: u64,
    after: u64,
)
    requires
        old(cs).inv(),
        index < old(cs)@.problem.n(),
        call_ensures(CoinSelector::<'a>::select, (cs, index), inserted),
        call_ensures(CoinSelector::<'a>::input_weight, (&*old(cs),), before),
        call_ensures(CoinSelector::<'a>::input_weight, (&*final(cs),), after),
        inserted,
    ensures
        ({
            let p = old(cs)@.problem;
            let s = old(cs)@.selected;
            let c = p.candidates[index as int];
            let count = p.segwit_of(s) + p.legacy_of(s);
            after == before + c.weight + 4 * (weights::varint_bytes(
                count + c.segwit_count + c.legacy_count,
            ) - weights::varint_bytes(count)) + (if p.segwit_of(s) > 0 {
                c.legacy_count as int
            } else if c.segwit_count > 0 {
                2 + p.legacy_of(s) + c.legacy_count
            } else {
                0
            })
        }),
{
    old(cs).inv_wf();
    old(cs)@.problem.inputs_grow(old(cs)@.selected, index as int);
}

/// A fee meets the target exactly if it is at least the implied fee: if it pays the feerate for the
/// virtual bytes besides the bump, the absolute fee, and what a replacement asks.
pub proof fn implied_fees_meet_the_target<'a>(
    cs: &CoinSelector<'a>,
    drain_weights: DrainWeights,
    weight: u64,
    vbytes: int,
    bump: u64,
    fee: u64,
    paid: int,
)
    requires
        call_ensures(CoinSelector::<'a>::weight, (cs, drain_weights), weight),
        call_ensures(CoinSelector::<'a>::ancestor_bump, (cs,), bump),
        call_ensures(CoinSelector::<'a>::implied_fee, (cs, drain_weights), fee),
        fee_laws::fills(vbytes, weight as int),
        paid >= 0,
    ensures
        paid >= fee <==> {
            let target = cs@.problem.target.fee;
            &&& (paid - bump) * 1000 >= vbytes * target.rate@
            &&& paid >= target.absolute
            &&& target.replace matches Some(replace) ==> (paid - replace.fee) * 1000 >= vbytes
                * replace.incremental_relay_feerate@
        },
{
    cs@.problem.owed_is_least(cs@.selected, drain_weights, vbytes, paid);
}

/// The excess is what is selected beyond the outputs, the drain and the implied fee; it is the
/// least of what each constraint leaves. A target is funded where it is not negative, and what is
/// missing is what it lacks.
pub proof fn excess_is_what_is_left<'a>(
    cs: &CoinSelector<'a>,
    drain: Drain,
    value: u64,
    fee: u64,
    paid: i64,
    excess: i64,
    rate_excess: i64,
    absolute_excess: i64,
    replacement_excess: i64,
    funded: bool,
)
    requires
        call_ensures(CoinSelector::<'a>::selected_value, (cs,), value),
        call_ensures(CoinSelector::<'a>::implied_fee, (cs, drain.weights), fee),
        call_ensures(CoinSelector::<'a>::fee, (cs, drain.value), paid),
        call_ensures(CoinSelector::<'a>::excess, (cs, drain), excess),
        call_ensures(CoinSelector::<'a>::rate_excess, (cs, drain), rate_excess),
        call_ensures(CoinSelector::<'a>::absolute_excess, (cs, drain), absolute_excess),
        call_ensures(CoinSelector::<'a>::replacement_excess, (cs, drain), replacement_excess),
        call_ensures(CoinSelector::<'a>::is_funded_with_drain, (cs, drain), funded),
    ensures
        paid == value - cs@.problem.target.outputs.value_sum - drain.value,
        excess == paid - fee,
        excess <= rate_excess && excess <= absolute_excess && excess <= replacement_excess,
        excess == rate_excess || excess == absolute_excess || excess == replacement_excess,
        absolute_excess == paid - cs@.problem.target.fee.absolute,
        cs@.problem.target.fee.replace is None ==> replacement_excess == paid,
        funded <==> excess >= 0,
{
    cs@.problem.excess_is_the_least_excess(cs@.selected, drain);
    cs@.problem.target.fee.only_replacements_ask(
        cs@.problem.tx_weight(cs@.selected, drain.weights),
    );
}

/// What each feerate leaves is the most that can be spared while its own constraint is met, on
/// virtual bytes or on weight units.
pub proof fn each_feerate_leaves_its_excess<'a>(
    cs: &CoinSelector<'a>,
    drain: Drain,
    weight: u64,
    vbytes: int,
    bump: u64,
    paid: i64,
    rate_excess: i64,
    rate_excess_wu: i64,
    replacement_excess: i64,
    replacement_excess_wu: i64,
    more: int,
)
    requires
        call_ensures(CoinSelector::<'a>::weight, (cs, drain.weights), weight),
        call_ensures(CoinSelector::<'a>::ancestor_bump, (cs,), bump),
        call_ensures(CoinSelector::<'a>::fee, (cs, drain.value), paid),
        call_ensures(CoinSelector::<'a>::rate_excess, (cs, drain), rate_excess),
        call_ensures(CoinSelector::<'a>::rate_excess_wu, (cs, drain), rate_excess_wu),
        call_ensures(CoinSelector::<'a>::replacement_excess, (cs, drain), replacement_excess),
        call_ensures(CoinSelector::<'a>::replacement_excess_wu, (cs, drain), replacement_excess_wu),
        fee_laws::fills(vbytes, weight as int),
    ensures
        more <= rate_excess <==> (paid - more - bump) * 1000 >= vbytes
            * cs@.problem.target.fee.rate@,
        more <= rate_excess_wu <==> (paid - more - bump) * 4000 >= weight
            * cs@.problem.target.fee.rate@,
        cs@.problem.target.fee.replace matches Some(replace) ==> {
            &&& more <= replacement_excess <==> (paid - more - replace.fee) * 1000 >= vbytes
                * replace.incremental_relay_feerate@
            &&& more <= replacement_excess_wu <==> (paid - more - replace.fee) * 4000 >= weight
                * replace.incremental_relay_feerate@
        },
        cs@.problem.target.fee.replace is None ==> replacement_excess == paid
            && replacement_excess_wu == paid,
{
    let p = cs@.problem;
    let w = p.tx_weight(cs@.selected, drain.weights);
    p.owed_is_least(cs@.selected, drain.weights, vbytes, paid - more);
    p.target.fee.only_replacements_ask(w);
    if let Some(replace) = p.target.fee.replace {
        replace.replacing_pays_twice(w, vbytes, paid - more);
    }
}

/// What is missing is what the excess lacks without a drain.
pub proof fn missing_is_what_excess_lacks<'a>(
    cs: &CoinSelector<'a>,
    excess: i64,
    missing: u64,
    funded: bool,
)
    requires
        call_ensures(CoinSelector::<'a>::excess, (cs, Drain::spec_none()), excess),
        call_ensures(CoinSelector::<'a>::missing, (cs,), missing),
        call_ensures(CoinSelector::<'a>::is_funded, (cs,), funded),
    ensures
        excess >= 0 ==> missing == 0 && funded,
        excess < 0 ==> missing == -excess && !funded,
{
}

/// The implied feerate is what is paid per virtual byte, to the nearest satoshi per thousand; there
/// is none where the outputs and the drain are worth more than what is selected.
pub proof fn implied_feerates_are_nearest<'a>(
    cs: &CoinSelector<'a>,
    drain: Drain,
    paid: i64,
    weight: u64,
    r: Option<FeeRate>,
)
    requires
        cs.inv(),
        call_ensures(CoinSelector::<'a>::fee, (cs, drain.value), paid),
        call_ensures(CoinSelector::<'a>::weight, (cs, drain.weights), weight),
        call_ensures(CoinSelector::<'a>::implied_feerate, (cs, drain), r),
        paid >= 0 ==> 4000 * paid < u64::MAX * weight,
    ensures
        r is Some <==> paid >= 0,
        r matches Some(rate) ==> 2 * rate@ * weight <= 2 * 4000 * paid + weight < 2 * (rate@ + 1)
            * weight,
{
    cs.inv_wf();
    cs@.problem.fees_bounded(cs@.selected, drain.weights);
    if paid >= 0 {
        let (x, w) = (paid as int, weight as int);
        let q = (8000 * x + w) / (2 * w);
        assert(2 * q * w <= 8000 * x + w < 2 * (q + 1) * w && 0 <= q) by (nonlinear_arith)
            requires
                0 < w,
                0 <= x,
                q == (8000 * x + w) / (2 * w),
        ;
        assert(q <= u64::MAX) by (nonlinear_arith)
            requires
                2 * q * w <= 8000 * x + w,
                4000 * x < u64::MAX * w,
                0 < w,
        ;
        fee_laws::saturated_keeps(q);
    }
}

/// The effective value is what is selected less the fee on the inputs, rounded up.
pub proof fn effective_value_pays_for_inputs<'a>(
    cs: &CoinSelector<'a>,
    value: u64,
    inputs: u64,
    effective: i64,
)
    requires
        call_ensures(CoinSelector::<'a>::selected_value, (cs,), value),
        call_ensures(CoinSelector::<'a>::input_weight, (cs,), inputs),
        call_ensures(CoinSelector::<'a>::effective_value, (cs,), effective),
    ensures
        4000 * (value - effective) >= inputs * cs@.problem.target.fee.rate@ > 4000 * (value
            - effective - 1),
{
    let rate = cs@.problem.target.fee.rate;
    let vbytes = FeeRate::weight_fills_vbytes(inputs as int);
    let fee = rate.fee_wu(inputs as int);
    rate.fee_is_least(inputs as int, vbytes, fee);
    rate.fee_is_least(inputs as int, vbytes, fee - 1);
}

/// The fee floor is the least that pays the target rate for each weight unit without a drain
/// besides the lower bound on the bump, the absolute fee, and what a replacement asks for each
/// weight unit.
pub proof fn fee_floors_are_least<'a>(
    cs: &CoinSelector<'a>,
    weight: u64,
    bound: u64,
    floor: u64,
    paid: int,
)
    requires
        cs.inv(),
        call_ensures(CoinSelector::<'a>::weight, (cs, DrainWeights::spec_none()), weight),
        call_ensures(CoinSelector::<'a>::ancestor_bump_lower_bound, (cs,), bound),
        call_ensures(CoinSelector::<'a>::fee_floor, (cs,), floor),
        paid >= 0,
    ensures
        paid >= floor <==> {
            let fee = cs@.problem.target.fee;
            &&& (paid - bound) * 4000 >= weight * fee.rate@
            &&& paid >= fee.absolute
            &&& fee.replace matches Some(replace) ==> (paid - replace.fee) * 4000 >= weight
                * replace.incremental_relay_feerate@
        },
{
    cs.inv_wf();
    cs@.fee_floor_is_least(paid);
}

/// The bump is the least that brings all ancestors that are dragged in to the target rate, each
/// counted once.
pub proof fn bumps_are_least<'a>(cs: &CoinSelector<'a>, ancestors: Bitset, bump: u64, paid: int)
    requires
        cs.inv(),
        call_ensures(CoinSelector::<'a>::selected_ancestors, (cs,), ancestors),
        call_ensures(CoinSelector::<'a>::ancestor_bump, (cs,), bump),
        cs@.problem.target.fee.rate.fee_wu(cs@.problem.all_ancestor_weight()) <= u64::MAX,
        paid >= 0,
    ensures
        ancestors@.len() == cs@.problem.m(),
        forall|a: int|
            0 <= a < cs@.problem.m() ==> (#[trigger] ancestors@[a] <==> exists|c: int|
                0 <= c < cs@.problem.n() && cs@.selected[c] && #[trigger] cs@.problem.drags[c][a]),
        paid >= bump <==> (crate::sums::over(
            ancestors@,
            |a: int| cs@.problem.ancestors[a].1 as int,
        ) + paid) * 4000 >= crate::sums::over(
            ancestors@,
            |a: int| cs@.problem.ancestors[a].0 as int,
        ) * cs@.problem.target.fee.rate@,
{
    cs.inv_wf();
    let p = cs@.problem;
    p.selection_bounded(cs@.selected);
    p.target.fee.rate.fee_monotone(p.ancestor_weight(cs@.selected), p.all_ancestor_weight());
    p.bump_is_least(cs@.selected, paid);
}

/// Ancestors can be added that some candidate drags in which is neither selected nor banned, and no
/// selected one.
pub proof fn addable_ancestors_are_new<'a>(cs: &CoinSelector<'a>, addable: Bitset, a: int)
    requires
        cs.inv(),
        call_ensures(CoinSelector::<'a>::addable_ancestors, (cs,), addable),
        0 <= a < cs@.problem.m(),
    ensures
        addable@.len() == cs@.problem.m(),
        addable@[a] <==> {
            &&& exists|c: int|
                0 <= c < cs@.problem.n() && !cs@.selected[c] && !cs@.banned[c]
                    && #[trigger] cs@.problem.drags[c][a]
            &&& forall|c: int|
                0 <= c < cs@.problem.n() && #[trigger] cs@.problem.drags[c][a] ==> !cs@.selected[c]
        },
{
    cs.inv_wf();
    let p = cs@.problem;
    if p.dragged(cs@.reachable(), a) {
        let c = choose|c: int|
            0 <= c < p.n() && cs@.reachable()[c] && #[trigger] p.drags[c][a];
        assert(!cs@.selected[c] && !cs@.banned[c] && p.drags[c][a]);
    }
    if exists|c: int|
        0 <= c < p.n() && !cs@.selected[c] && !cs@.banned[c] && #[trigger] p.drags[c][a] {
        let c = choose|c: int|
            0 <= c < p.n() && !cs@.selected[c] && !cs@.banned[c] && #[trigger] p.drags[c][a];
        assert(cs@.undecided(c));
        assert(cs@.reachable()[c]);
    }
}

/// A policy makes change exactly if more than its least value can be drained, and then drains all
/// that can be: the target is funded with the change, and with no satoshi more.
pub proof fn change_drains_the_excess<'a>(
    cs: &CoinSelector<'a>,
    policy: ChangePolicy,
    excess: i64,
    value: Option<u64>,
    drain: Drain,
)
    requires
        call_ensures(
            CoinSelector::<'a>::excess,
            (cs, Drain { weights: policy.drain_weights, value: 0 }),
            excess,
        ),
        call_ensures(CoinSelector::<'a>::drain_value, (cs, policy), value),
        call_ensures(CoinSelector::<'a>::drain, (cs, policy), drain),
    ensures
        excess > policy.min_value ==> value == Some(excess as u64) && drain == (Drain {
            weights: policy.drain_weights,
            value: excess as u64,
        }),
        excess <= policy.min_value ==> value is None && drain == Drain::spec_none(),
{
}

/// Candidates are listed in order, and those that are left are the ones that are neither selected
/// nor banned.
pub proof fn lists_hold_what_they_say<'a>(
    cs: &CoinSelector<'a>,
    all: Vec<(usize, Candidate)>,
    left: Vec<(usize, Candidate)>,
    indices: Vec<usize>,
    exhausted: bool,
    c: usize,
)
    requires
        cs.inv(),
        call_ensures(CoinSelector::<'a>::candidates, (cs,), all),
        call_ensures(CoinSelector::<'a>::unselected, (cs,), left),
        call_ensures(CoinSelector::<'a>::unselected_indices, (cs,), indices),
        call_ensures(CoinSelector::<'a>::is_exhausted, (cs,), exhausted),
        c < cs@.problem.n(),
    ensures
        all@.len() == cs@.problem.n(),
        forall|k: int|
            0 <= k < all@.len() ==> (#[trigger] all@[k]).0 == cs@.order[k] && all@[k].1
                == cs@.problem.candidates[all@[k].0 as int],
        left@.len() == indices@.len(),
        forall|k: int|
            0 <= k < left@.len() ==> (#[trigger] left@[k]).0 == indices@[k] && left@[k].1
                == cs@.problem.candidates[left@[k].0 as int],
        indices@.contains(c) <==> !cs@.selected[c as int] && !cs@.banned[c as int],
        indices@.no_duplicates(),
        exhausted <==> indices@.len() == 0,
{
    cs.inv_wf();
    cs@.unselected_lists();
    if !cs@.selected[c as int] && !cs@.banned[c as int] {
        assert(cs@.undecided(c as int));
    }
    if indices@.contains(c) {
        let k = choose|k: int| 0 <= k < indices@.len() && indices@[k] == c;
        assert(cs@.undecided(cs@.unselected()[k] as int));
    }
}

/// What is selected is listed once, by index, with what it holds.
pub proof fn selected_lists_are_ascending<'a>(
    cs: &CoinSelector<'a>,
    list: Vec<(usize, Candidate)>,
    c: usize,
)
    requires
        cs.inv(),
        call_ensures(CoinSelector::<'a>::selected, (cs,), list),
        c < cs@.problem.n(),
    ensures
        cs@.selected[c as int] <==> exists|k: int| 0 <= k < list@.len() && (#[trigger] list@[k]).0 == c,
        forall|i: int, j: int|
            0 <= i < j < list@.len() ==> (#[trigger] list@[i]).0 < (#[trigger] list@[j]).0,
        forall|k: int|
            0 <= k < list@.len() ==> (#[trigger] list@[k]).1
                == cs@.problem.candidates[list@[k].0 as int],
{
    cs.inv_wf();
    let indices = Seq::new(list@.len(), |k: int| list@[k].0);
    assert(bitset::lists(indices, cs@.selected));
    if cs@.selected[c as int] {
        assert(indices.contains(c));
        let k = choose|k: int| 0 <= k < indices.len() && indices[k] == c;
        assert(list@[k].0 == c);
    }
    assert forall|i: int, j: int| 0 <= i < j < list@.len() implies (#[trigger] list@[i]).0 < (
    #[trigger] list@[j]).0 by {
        assert(indices[i] < indices[j]);
    }
    if exists|k: int| 0 <= k < list@.len() && (#[trigger] list@[k]).0 == c {
        let k = choose|k: int| 0 <= k < list@.len() && (#[trigger] list@[k]).0 == c;
        assert(indices[k] == c);
    }
}

/// The lightest candidate that is left is one of them, and none is lighter.
pub proof fn lightest_is_left<'a>(cs: &CoinSelector<'a>, r: Option<u64>, c: int)
    requires
        cs.inv(),
        call_ensures(CoinSelector::<'a>::min_input_weight, (cs,), r),
        0 <= c < cs@.problem.n(),
        !cs@.selected[c],
        !cs@.banned[c],
    ensures
        r matches Some(weight) && weight <= cs@.problem.candidates[c].weight && exists|d: int|
            0 <= d < cs@.problem.n() && !cs@.selected[d] && !cs@.banned[d] && (
            #[trigger] cs@.problem.candidates[d]).weight == weight,
{
    cs.inv_wf();
    cs@.unselected_lists();
    assert(cs@.undecided(c));
    let u = cs@.unselected();
    let k = choose|k: int| 0 <= k < u.len() && u[k] == c as usize;
    assert(cs@.problem.candidates[u[k] as int].weight >= r->0);
    let j = choose|j: int|
        0 <= j < u.len() && cs@.problem.candidates[#[trigger] u[j] as int].weight == r->0;
    assert(cs@.undecided(u[j] as int));
    assert(cs@.problem.candidates[u[j] as int].weight == r->0);
}

/// Selecting the next candidate selects the first in order that is neither selected nor banned.
pub proof fn next_is_the_first_left<'a, 'b>(
    cs: &'b mut CoinSelector<'a>,
    selected: bool,
    at: int,
    c: int,
)
    requires
        old(cs).inv(),
        call_ensures(CoinSelector::<'a>::select_next, (cs,), selected),
        0 <= at < old(cs)@.order.len(),
        ({
            let first = old(cs)@.order[at] as int;
            !old(cs)@.selected[first] && !old(cs)@.banned[first]
        }),
        forall|k: int|
            0 <= k < at ==> old(cs)@.selected[#[trigger] old(cs)@.order[k] as int]
                || old(cs)@.banned[old(cs)@.order[k] as int],
        0 <= c < old(cs)@.problem.n(),
    ensures
        selected,
        final(cs)@.selected[c] <==> old(cs)@.selected[c] || c == old(cs)@.order[at],
        final(cs)@.banned == old(cs)@.banned,
        final(cs)@.order == old(cs)@.order,
{
    old(cs).inv_wf();
    let state = old(cs)@;
    let first = state.order[at];
    state.unselected_lists();
    assert(first < state.problem.n());
    assert(state.undecided(first as int));
    let u = state.unselected();
    let i = choose|i: int| 0 <= i < u.len() && u[i] == first;
    if i > 0 {
        let places = state.undecided_in_order(0, i);
        assert(state.order[places.1] == first);
        if places.1 < at {
            assert(state.order[places.1] != state.order[at]);
        }
        if at < places.1 {
            assert(state.order[at] != state.order[places.1]);
        }
        assert(state.undecided(u[0] as int));
    }
}

/// Selecting all selects what is not banned, and selecting all effective candidates what of that is
/// worth more than its weight costs. A selection is fundable if it is funded, or is so then.
pub proof fn selecting_all_spares_the_banned<'a, 'b>(
    all: &'b mut CoinSelector<'a>,
    effective: &'b mut CoinSelector<'a>,
    fundable: bool,
    c: int,
)
    requires
        old(all).inv(),
        old(effective)@ == old(all)@,
        call_ensures(CoinSelector::<'a>::select_all, (all,), ()),
        call_ensures(CoinSelector::<'a>::select_all_effective, (effective,), ()),
        call_ensures(CoinSelector::<'a>::is_fundable, (&*old(all),), fundable),
        0 <= c < old(all)@.problem.n(),
    ensures
        final(all)@.selected[c] <==> old(all)@.selected[c] || !old(all)@.banned[c],
        final(effective)@.selected[c] <==> old(all)@.selected[c] || (!old(all)@.banned[c] && old(all)@.problem.candidates[c].value * 4000 > old(all)@.problem.candidates[c].weight * old(all)@.problem.target.fee.rate@),
        fundable <==> old(all)@.problem.funded(old(all)@.selected, Drain::spec_none()) || old(all)@.problem.funded(final(effective)@.selected, Drain::spec_none()),
        final(all)@.order == old(all)@.order && final(all)@.banned == old(all)@.banned,
{
    old(all).inv_wf();
    let state = old(all)@;
    state.fundable_with_all_that_pays(final(effective)@.selected);
}

/// Applying a selection picks the items of the selected candidates, by index.
pub proof fn applying_picks_the_selected<'a, 'b, T>(
    cs: &CoinSelector<'a>,
    items: &'b [T],
    list: Vec<&'b T>,
    indices: Seq<usize>,
)
    requires
        cs.inv(),
        call_ensures(CoinSelector::<'a>::apply_selection::<T>, (cs, items), list),
        forall|c: int|
            0 <= c < cs@.selected.len() ==> (#[trigger] cs@.selected[c] <==> indices.contains(
                c as usize,
            )),
        forall|k: int| 0 <= k < indices.len() ==> #[trigger] indices[k] < cs@.selected.len(),
        forall|i: int, j: int|
            0 <= i < j < indices.len() ==> #[trigger] indices[i] < #[trigger] indices[j],
    ensures
        list@.len() == indices.len(),
        forall|k: int| 0 <= k < list@.len() ==> *#[trigger] list@[k] == items@[indices[k] as int],
{
    cs.inv_wf();
    assert forall|k: int| 0 <= k < indices.len() implies cs@.selected[#[trigger] indices[k] as int] by {
        assert(indices.contains(indices[k]));
    }
    assert(bitset::lists(indices, cs@.selected));
    let found = choose|found: Seq<usize>|
        {
            &&& #[trigger] bitset::lists(found, cs@.selected)
            &&& list@.len() == found.len()
            &&& forall|k: int|
                0 <= k < found.len() ==> *#[trigger] list@[k] == items@[found[k] as int]
        };
    bitset_laws::lists_are_unique(found, indices, cs@.selected);
    assert forall|k: int| 0 <= k < list@.len() implies *#[trigger] list@[k]
        == items@[indices[k] as int] by {
        assert(found[k] == indices[k]);
    }
}

/// Another problem with as many candidates keeps what is selected, banned and ordered.
pub proof fn other_problems_keep_the_selection<'a>(
    cs: &CoinSelector<'a>,
    problem: &'a SelectionProblem,
    r: CoinSelector<'a>,
)
    requires
        call_ensures(CoinSelector::<'a>::with_problem, (cs, problem), r),
    ensures
        r@.problem == problem@,
        r@.selected == cs@.selected && r@.banned == cs@.banned && r@.order == cs@.order,
{
}

/// Whether a predicate can have given an answer on a selection.
pub open spec fn said<'a, F: FnMut(&CoinSelector<'a>) -> bool>(
    predicate: F,
    state: SelectionState,
    answer: bool,
) -> bool {
    exists|cs: &CoinSelector<'a>| cs@ == state && #[trigger] call_ensures(predicate, (cs,), answer)
}

/// Selecting until a predicate holds asks it of each selection on the way, and stops at the first
/// of which it holds, or once all candidates are selected.
pub proof fn selecting_stops_once_it_holds<'a, 'b, F: FnMut(&CoinSelector<'a>) -> bool>(
    cs: &'b mut CoinSelector<'a>,
    predicate: F,
    r: Option<()>,
)
    requires
        call_ensures(CoinSelector::<'a>::select_until, (cs, predicate), r),
    ensures
        exists|k: int|
            {
                &&& 0 <= k <= old(cs)@.unselected().len()
                &&& final(cs)@ == #[trigger] old(cs)@.taking(k)
                &&& forall|j: int|
                    0 <= j < k ==> said(predicate, #[trigger] old(cs)@.taking(j), false)
                &&& r is Some ==> said(predicate, final(cs)@, true)
                &&& r is None ==> said(predicate, final(cs)@, false) && k == old(cs)@.unselected().len()
            },
{
    let before = old(cs)@;
    let after = final(cs)@;
    assert forall|state: SelectionState, answer: bool| #[trigger]
        strategies::answered(predicate, state, answer) implies said(predicate, state, answer) by {}
    let k = choose|k: int|
        {
            &&& 0 <= k <= before.unselected().len()
            &&& after == #[trigger] before.taking(k)
            &&& forall|j: int|
                0 <= j < k ==> strategies::answered(predicate, #[trigger] before.taking(j), false)
            &&& r is Some ==> strategies::answered(predicate, after, true)
            &&& r is None ==> k == before.unselected().len() && strategies::answered(
                predicate,
                after,
                false,
            )
        };
    assert forall|j: int| 0 <= j < k implies said(predicate, #[trigger] before.taking(j), false) by {
        assert(strategies::answered(predicate, before.taking(j), false));
    }
    assert(after == before.taking(k));
}

/// Shuffling changes the order only, and leaves one.
pub proof fn shuffling_changes_the_order_only<'a, 'b>(cs: &'b mut CoinSelector<'a>, draws: &Vec<u64>)
    requires
        old(cs).inv(),
        draws@.len() + 1 >= old(cs)@.problem.n(),
        call_ensures(CoinSelector::<'a>::shuffle_with, (cs, draws), ()),
    ensures
        final(cs)@ == (SelectionState { order: final(cs)@.order, ..old(cs)@ }),
        model::is_order(final(cs)@.order, old(cs)@.problem.n()),
        final(cs)@.order == strategies::shuffled(
            old(cs)@.order,
            draws@,
            old(cs)@.problem.n() - 1,
        ),
{
    old(cs).inv_wf();
    strategy_laws::shuffles_leave_an_order(
        old(cs)@.order,
        draws@,
        old(cs)@.problem.n() - 1,
    );
}

/// The candidate that an order has at `k`, with its index.
pub open spec fn placed(state: SelectionState, order: Seq<usize>, k: int) -> (usize, Candidate) {
    (order[k], state.problem.candidates[order[k] as int])
}

/// Sorting by a comparison moves candidates only, and leaves none right after one that it compares
/// as greater.
pub proof fn sorting_follows_the_comparison<
    'a,
    'b,
    F: Fn((usize, Candidate), (usize, Candidate)) -> Ordering,
>(cs: &'b mut CoinSelector<'a>, compare: F, k: int)
    requires
        old(cs).inv(),
        final(cs).inv(),
        call_ensures(CoinSelector::<'a>::sort_candidates_by::<F>, (cs, compare), ()),
        0 <= k < old(cs)@.problem.n() - 1,
    ensures
        final(cs)@ == (SelectionState { order: final(cs)@.order, ..old(cs)@ }),
        model::is_order(final(cs)@.order, old(cs)@.problem.n()),
        ({
            let x = placed(old(cs)@, final(cs)@.order, k);
            let y = placed(old(cs)@, final(cs)@.order, k + 1);
            ||| call_ensures(compare, (x, y), Ordering::Less)
            ||| call_ensures(compare, (x, y), Ordering::Equal)
            ||| call_ensures(compare, (y, x), Ordering::Greater)
        }),
{
    let before = old(cs)@;
    let after = final(cs)@;
    old(cs).inv_wf();
    final(cs).inv_wf();
    let positions = choose|positions: Seq<usize>|
        {
            &&& #[trigger] before.reordered(after, positions)
            &&& ordering::compared(compare, before, positions)
        };
    let (p, q) = (positions[k], positions[k + 1]);
    assert(ordering::compared_step(compare, before, p, q));
}

} // verus!
