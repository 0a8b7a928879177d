//! A view reports what its selector does, without computing it anew.
use crate::candidate::Candidate;
use crate::coin_selector::CoinSelector;
use crate::drain::{ChangePolicy, Drain, DrainWeights};
use crate::feerate::FeeRate;
use crate::selection_view::SelectionView;
use vstd::prelude::*;

verus! {

/// A view agrees with its selector on what is selected, what it weighs and what it pays.
pub proof fn views_agree_on_weight<'a, 'b>(
    cs: &CoinSelector<'a>,
    view: &SelectionView<'b>,
    drain: Drain,
    index: usize,
    is_selected: bool,
    of_view_is_selected: bool,
    candidate: Candidate,
    of_view_candidate: Candidate,
    selected_value: u64,
    of_view_selected_value: u64,
    input_weight: u64,
    of_view_input_weight: u64,
    weight: u64,
    of_view_weight: u64,
    fee: i64,
    of_view_fee: i64,
    is_within_max_weight: bool,
    of_view_is_within_max_weight: bool,
)
    requires
        cs.inv(),
        view.inv(),
        view@ == cs@,
        index < cs@.problem.n(),
        call_ensures(CoinSelector::<'a>::is_selected, (cs, index), is_selected),
        call_ensures(SelectionView::<'b>::is_selected, (view, index), of_view_is_selected),
        call_ensures(CoinSelector::<'a>::candidate, (cs, index), candidate),
        call_ensures(SelectionView::<'b>::candidate, (view, index), of_view_candidate),
        call_ensures(CoinSelector::<'a>::selected_value, (cs,), selected_value),
        call_ensures(SelectionView::<'b>::selected_value, (view,), of_view_selected_value),
        call_ensures(CoinSelector::<'a>::input_weight, (cs,), input_weight),
        call_ensures(SelectionView::<'b>::input_weight, (view,), of_view_input_weight),
        call_ensures(CoinSelector::<'a>::weight, (cs, drain.weights), weight),
        call_ensures(SelectionView::<'b>::weight, (view, cs@.problem.target.outputs, drain.weights), of_view_weight),
        call_ensures(CoinSelector::<'a>::fee, (cs, drain.value), fee),
        call_ensures(SelectionView::<'b>::fee, (view, cs@.problem.target.outputs.value_sum, drain.value), of_view_fee),
        call_ensures(CoinSelector::<'a>::is_within_max_weight, (cs, drain.weights), is_within_max_weight),
        call_ensures(SelectionView::<'b>::is_within_max_weight, (view, drain.weights), of_view_is_within_max_weight),
    ensures
        of_view_is_selected == is_selected,
        of_view_candidate == candidate,
        of_view_selected_value == selected_value,
        of_view_input_weight == input_weight,
        of_view_weight == weight,
        of_view_fee == fee,
        of_view_is_within_max_weight == is_within_max_weight,
{
    cs.inv_wf();
}

/// A view agrees with its selector on every excess.
pub proof fn views_agree_on_excess<'a, 'b>(
    cs: &CoinSelector<'a>,
    view: &SelectionView<'b>,
    drain: Drain,
    excess: i64,
    of_view_excess: i64,
    missing: u64,
    of_view_missing: u64,
    rate_excess: i64,
    of_view_rate_excess: i64,
    rate_excess_wu: i64,
    of_view_rate_excess_wu: i64,
    absolute_excess: i64,
    of_view_absolute_excess: i64,
    replacement_excess: i64,
    of_view_replacement_excess: i64,
    replacement_excess_wu: i64,
    of_view_replacement_excess_wu: i64,
    is_funded_with_drain: bool,
    of_view_is_funded_with_drain: bool,
    is_funded: bool,
    of_view_is_funded: bool,
)
    requires
        cs.inv(),
        view.inv(),
        view@ == cs@,
        call_ensures(CoinSelector::<'a>::excess, (cs, drain), excess),
        call_ensures(SelectionView::<'b>::excess, (view, drain), of_view_excess),
        call_ensures(CoinSelector::<'a>::missing, (cs,), missing),
        call_ensures(SelectionView::<'b>::missing, (view,), of_view_missing),
        call_ensures(CoinSelector::<'a>::rate_excess, (cs, drain), rate_excess),
        call_ensures(SelectionView::<'b>::rate_excess, (view, drain), of_view_rate_excess),
        call_ensures(CoinSelector::<'a>::rate_excess_wu, (cs, drain), rate_excess_wu),
        call_ensures(SelectionView::<'b>::rate_excess_wu, (view, drain), of_view_rate_excess_wu),
        call_ensures(CoinSelector::<'a>::absolute_excess, (cs, drain), absolute_excess),
        call_ensures(SelectionView::<'b>::absolute_excess, (view, drain), of_view_absolute_excess),
        call_ensures(CoinSelector::<'a>::replacement_excess, (cs, drain), replacement_excess),
        call_ensures(SelectionView::<'b>::replacement_excess, (view, drain), of_view_replacement_excess),
        call_ensures(CoinSelector::<'a>::replacement_excess_wu, (cs, drain), replacement_excess_wu),
        call_ensures(SelectionView::<'b>::replacement_excess_wu, (view, drain), of_view_replacement_excess_wu),
        call_ensures(CoinSelector::<'a>::is_funded_with_drain, (cs, drain), is_funded_with_drain),
        call_ensures(SelectionView::<'b>::is_funded_with_drain, (view, drain), of_view_is_funded_with_drain),
        call_ensures(CoinSelector::<'a>::is_funded, (cs,), is_funded),
        call_ensures(SelectionView::<'b>::is_funded, (view,), of_view_is_funded),
    ensures
        of_view_excess == excess,
        of_view_missing == missing,
        of_view_rate_excess == rate_excess,
        of_view_rate_excess_wu == rate_excess_wu,
        of_view_absolute_excess == absolute_excess,
        of_view_replacement_excess == replacement_excess,
        of_view_replacement_excess_wu == replacement_excess_wu,
        of_view_is_funded_with_drain == is_funded_with_drain,
        of_view_is_funded == is_funded,
{
    cs.inv_wf();
}

/// A view agrees with its selector on fees, bumps and what can be funded.
pub proof fn views_agree_on_fees<'a, 'b>(
    cs: &CoinSelector<'a>,
    view: &SelectionView<'b>,
    drain_weights: DrainWeights,
    ancestor_bump: u64,
    of_view_ancestor_bump: u64,
    ancestor_bump_lower_bound: u64,
    of_view_ancestor_bump_lower_bound: u64,
    implied_fee: u64,
    of_view_implied_fee: u64,
    fee_floor: u64,
    of_view_fee_floor: u64,
    effective_value: i64,
    of_view_effective_value: i64,
    is_fundable: bool,
    of_view_is_fundable: bool,
)
    requires
        cs.inv(),
        view.inv(),
        view@ == cs@,
        call_ensures(CoinSelector::<'a>::ancestor_bump, (cs,), ancestor_bump),
        call_ensures(SelectionView::<'b>::ancestor_bump, (view,), of_view_ancestor_bump),
        call_ensures(CoinSelector::<'a>::ancestor_bump_lower_bound, (cs,), ancestor_bump_lower_bound),
        call_ensures(SelectionView::<'b>::ancestor_bump_lower_bound, (view,), of_view_ancestor_bump_lower_bound),
        call_ensures(CoinSelector::<'a>::implied_fee, (cs, drain_weights), implied_fee),
        call_ensures(SelectionView::<'b>::implied_fee, (view, drain_weights), of_view_implied_fee),
        call_ensures(CoinSelector::<'a>::fee_floor, (cs,), fee_floor),
        call_ensures(SelectionView::<'b>::fee_floor, (view,), of_view_fee_floor),
        call_ensures(CoinSelector::<'a>::effective_value, (cs,), effective_value),
        call_ensures(SelectionView::<'b>::effective_value, (view, cs@.problem.target.fee.rate), of_view_effective_value),
        call_ensures(CoinSelector::<'a>::is_fundable, (cs,), is_fundable),
        call_ensures(SelectionView::<'b>::is_fundable, (view,), of_view_is_fundable),
    ensures
        of_view_ancestor_bump == ancestor_bump,
        of_view_ancestor_bump_lower_bound == ancestor_bump_lower_bound,
        of_view_implied_fee == implied_fee,
        of_view_fee_floor == fee_floor,
        of_view_effective_value == effective_value,
        of_view_is_fundable == is_fundable,
{
    cs.inv_wf();
}

/// A view agrees with its selector on change.
pub proof fn views_agree_on_change<'a, 'b>(
    cs: &CoinSelector<'a>,
    view: &SelectionView<'b>,
    policy: ChangePolicy,
    drain_value: Option<u64>,
    of_view_drain_value: Option<u64>,
    drain: Drain,
    of_view_drain: Drain,
)
    requires
        cs.inv(),
        view.inv(),
        view@ == cs@,
        call_ensures(CoinSelector::<'a>::drain_value, (cs, policy), drain_value),
        call_ensures(SelectionView::<'b>::drain_value, (view, policy), of_view_drain_value),
        call_ensures(CoinSelector::<'a>::drain, (cs, policy), drain),
        call_ensures(SelectionView::<'b>::drain, (view, policy), of_view_drain),
    ensures
        of_view_drain_value == drain_value,
        of_view_drain == drain,
{
    cs.inv_wf();
}

/// A view agrees with its selector on the implied feerate.
pub proof fn views_agree_on_feerates<'a, 'b>(
    cs: &CoinSelector<'a>,
    view: &SelectionView<'b>,
    drain: Drain,
    rate: Option<FeeRate>,
    of_view: Option<FeeRate>,
)
    requires
        view@ == cs@,
        call_ensures(CoinSelector::<'a>::implied_feerate, (cs, drain), rate),
        call_ensures(
            SelectionView::<'b>::implied_feerate,
            (view, cs@.problem.target.outputs, drain),
            of_view,
        ),
    ensures
        rate is Some <==> of_view is Some,
        rate matches Some(rate) ==> of_view->0@ == rate@,
{
}

/// A view starts out as its selector stands. Adding and taking back a candidate change that one
/// only.
pub proof fn views_change_one<'a, 'b>(
    cs: &'a CoinSelector<'a>,
    computed: SelectionView<'a>,
    more: &'b mut SelectionView<'a>,
    less: &'b mut SelectionView<'a>,
    index: usize,
    d: int,
)
    requires
        cs.inv(),
        call_ensures(CoinSelector::<'a>::compute_view, (cs,), computed),
        old(more)@ == cs@,
        old(less)@ == cs@,
        call_ensures(SelectionView::<'a>::add, (more, index), ()),
        call_ensures(SelectionView::<'a>::sub, (less, index), ()),
        index < cs@.problem.n(),
        0 <= d < cs@.problem.n(),
    ensures
        computed@ == cs@,
        final(more)@.selected[d] <==> d == index || cs@.selected[d],
        final(less)@.selected[d] <==> d != index && cs@.selected[d],
        final(more)@.banned == cs@.banned && final(less)@.banned == cs@.banned,
        final(more)@.order == cs@.order && final(less)@.order == cs@.order,
{
    cs.inv_wf();
    cs@.updates_change_one(index as int, d);
}

/// What is asked of the candidates that are left is asked of each: whether one of them has value
/// but no weight, and whether all are worth more than their weight costs.
pub proof fn views_ask_each_candidate<'b>(
    view: &SelectionView<'b>,
    weightless: bool,
    all_worth: bool,
    best: (u64, u64),
    c: int,
)
    requires
        view.inv(),
        call_ensures(SelectionView::<'b>::has_weightless_undecided_value, (view,), weightless),
        call_ensures(
            SelectionView::<'b>::every_undecided_candidate_is_worth_selecting,
            (view,),
            all_worth,
        ),
        call_ensures(SelectionView::<'b>::best_undecided_value_pwu, (view,), best),
        0 <= c < view@.problem.n(),
        !view@.selected[c],
        !view@.banned[c],
    ensures
        ({
            let candidate = view@.problem.candidates[c];
            &&& candidate.weight == 0 && candidate.value > 0 ==> weightless
            &&& all_worth ==> candidate.value * 4000 > candidate.weight
                * view@.problem.target.fee.rate@
            &&& candidate.weight > 0 ==> candidate.value * best.1 <= best.0 * candidate.weight
        }),
        best.1 > 0,
        weightless ==> exists|d: int|
            0 <= d < view@.problem.n() && !view@.selected[d] && !view@.banned[d] && (
            #[trigger] view@.problem.candidates[d]).weight == 0 && view@.problem.candidates[d].value
                > 0,
        !all_worth ==> exists|d: int|
            0 <= d < view@.problem.n() && !view@.selected[d] && !view@.banned[d] && (
            #[trigger] view@.problem.candidates[d]).value * 4000 <= view@.problem.candidates[d].weight
                * view@.problem.target.fee.rate@,
        best == (0u64, 1u64) || exists|d: int|
            0 <= d < view@.problem.n() && !view@.selected[d] && !view@.banned[d] && (
            #[trigger] view@.problem.candidates[d]).value == best.0
                && view@.problem.candidates[d].weight == best.1,
{
    view.inv_wf();
    view@.what_is_left_is_asked_one_by_one();
    assert(view@.undecided(c));
    if best != (0u64, 1u64) {
        let d = choose|d: int|
            0 <= d < view@.problem.n() && #[trigger] view@.undecided(d) && best.0
                == view@.problem.candidates[d].value && best.1 == view@.problem.candidates[d].weight;
        assert(!view@.selected[d] && !view@.banned[d] && view@.problem.candidates[d].value == best.0);
    }
}

/// The excess in reach is what all candidates that are worth it would leave: their value and what
/// is paid already, less the fee on the weight so far, the fee on the weight that they add, and the
/// lower bound on the bump.
pub proof fn views_reach_what_pays<'b>(
    view: &SelectionView<'b>,
    all: Seq<bool>,
    bound: u64,
    excess: i64,
)
    requires
        view.inv(),
        all.len() == view@.problem.n(),
        forall|c: int|
            0 <= c < all.len() ==> (#[trigger] all[c] <==> view@.selected[c] || (!view@.banned[c]
                && view@.problem.candidates[c].value * 4000 > view@.problem.candidates[c].weight
                * view@.problem.target.fee.rate@)),
        call_ensures(SelectionView::<'b>::ancestor_bump_lower_bound, (view,), bound),
        call_ensures(SelectionView::<'b>::best_reachable_rate_excess_wu, (view,), excess),
    ensures
        ({
            let p = view@.problem;
            let rate = p.target.fee.rate;
            excess == p.value_of(all) - p.target.outputs.value_sum - rate.fee_wu(
                p.tx_weight(view@.selected, DrainWeights::spec_none()),
            ) - rate.fee_wu(p.weight_of(all) - p.weight_of(view@.selected)) - bound
        }),
{
    view.inv_wf();
    view@.fundable_with_all_that_pays(all);
    view@.reachable_excess_takes_all_that_pays();
}

} // verus!
