//! When the greedy bound of an unfunded selection can be trusted.
use crate::bitset;
use crate::candidate::Candidate;
use crate::drain::{Drain, DrainWeights};
use crate::feerate;
use crate::feerate::FeeRate;
use crate::metrics::lowest_fee;
use crate::metrics::lowest_fee::LowestFee;
use crate::model::{ProblemView, SelectionState};
use crate::sums;
use crate::target::Replace;
use crate::weights;
use vstd::prelude::*;

verus! {

/// Whether the undecided candidates come by descending value per weight unit.
pub open spec fn by_density(state: SelectionState) -> bool {
    let u = state.unselected();
    forall|i: int, j: int|
        0 <= i < j < u.len() ==> !Candidate::denser(
            state.problem.candidates[#[trigger] u[j] as int],
            state.problem.candidates[#[trigger] u[i] as int],
        )
}

/// What framing the inputs of a selection weighs beyond the inputs themselves.
pub open spec fn overhead(p: ProblemView, s: Seq<bool>) -> int {
    p.input_weight(s) - p.weight_of(s)
}

/// What the transaction that spends a selection weighs beyond the selected candidates.
pub open spec fn frame(p: ProblemView, s: Seq<bool>) -> int {
    p.tx_weight(s, DrainWeights::spec_none()) - p.weight_of(s)
}

/// What a fee constraint asks for that depends on weight: a fixed amount, and a feerate.
pub struct Ask {
    /// The feerate that is asked for.
    pub rate: FeeRate,
    /// What is asked for on top of that.
    pub fixed: int,
}

impl Ask {
    /// What is asked of a transaction of `weight`.
    pub open spec fn owed(self, weight: int) -> int {
        self.fixed + self.rate.fee(weight)
    }

    /// What a candidate brings beyond what its weight costs, in 4000ths of a satoshi.
    pub open spec fn gain(self, c: Candidate) -> int {
        4000 * c.value - self.rate@ * c.weight
    }

    /// Whether a candidate is worth having: it brings more than its weight costs, or weighs
    /// nothing.
    pub open spec fn likes(self, c: Candidate) -> bool {
        self.gain(c) > 0 || c.weight == 0
    }

    /// Whether no transaction is asked for more by `other`.
    pub open spec fn outweighs(self, other: Ask, p: ProblemView) -> bool {
        forall|weight: int|
            weight >= lightest(p) ==> #[trigger] other.owed(weight) <= self.owed(weight)
    }

    /// Whether no undecided candidate brings more than its weight costs by the one feerate, but not
    /// by the other.
    pub open spec fn agrees(self, other: Ask, state: SelectionState) -> bool {
        forall|c: int|
            0 <= c < state.problem.n() && #[trigger] state.undecided(c) ==> (self.gain(
                state.problem.candidates[c],
            ) > 0 <==> other.gain(state.problem.candidates[c]) > 0)
    }
}

/// The weight of a transaction that spends nothing, without change.
pub open spec fn lightest(p: ProblemView) -> int {
    weights::TX_FIXED_FIELD_WEIGHT + 4 + p.target.outputs.weight_with_drain(
        DrainWeights::spec_none(),
    )
}

/// What the target feerate asks for.
pub open spec fn rate_ask(p: ProblemView) -> Ask {
    Ask { rate: p.target.fee.rate, fixed: 0 }
}

/// What is asked for a replacement.
pub open spec fn replacement_ask(replace: Replace) -> Ask {
    Ask { rate: replace.incremental_relay_feerate, fixed: replace.fee as int }
}

/// Whether a target asks for this: by its feerate, or because something is replaced.
pub open spec fn asks(p: ProblemView, ask: Ask) -> bool {
    ||| ask == rate_ask(p)
    ||| p.target.fee.replace matches Some(replace) && ask == replacement_ask(replace)
}

/// Whether candidates that are worth having for `lead` are so for all that is asked: whatever else
/// is asked is never more, or agrees on all undecided candidates. The absolute fee is never more,
/// or all undecided candidates are worth having.
pub open spec fn leads(state: SelectionState, lead: Ask) -> bool {
    let p = state.problem;
    &&& asks(p, lead)
    &&& forall|ask: Ask| #[trigger]
        asks(p, ask) ==> lead.outweighs(ask, p) || lead.agrees(ask, state)
    &&& p.target.fee.absolute <= lead.owed(lightest(p)) || forall|c: int|
        0 <= c < p.n() && #[trigger] state.undecided(c) ==> lead.likes(p.candidates[c])
}

/// Whether something that is asked leads.
pub open spec fn is_led(state: SelectionState) -> bool {
    exists|lead: Ask| #[trigger] leads(state, lead)
}

/// What leads leads also where less is undecided.
pub proof fn leads_on(root: SelectionState, state: SelectionState)
    requires
        is_led(root),
        state.problem == root.problem,
        forall|c: int|
            0 <= c < state.problem.n() && #[trigger] state.undecided(c) ==> root.undecided(c),
    ensures
        is_led(state),
{
    let lead = choose|lead: Ask| #[trigger] leads(root, lead);
    assert forall|ask: Ask| #[trigger] asks(state.problem, ask) implies lead.outweighs(
        ask,
        state.problem,
    ) || lead.agrees(ask, state) by {
        if lead.agrees(ask, root) {
            assert(lead.agrees(ask, state));
        }
    }
    assert(leads(state, lead));
}

/// Where a target has no other constraint than its feerate, that leads.
pub proof fn feerate_alone_leads(state: SelectionState)
    requires
        state.problem.target.fee.replace is None,
        state.problem.target.fee.absolute <= state.problem.target.fee.rate.fee(
            lightest(state.problem),
        ),
    ensures
        is_led(state),
{
    assert(leads(state, rate_ask(state.problem)));
}

/// Where every undecided candidate brings more than its weight costs by every feerate that is asked
/// for, the target feerate leads, whatever else is asked.
pub proof fn paying_candidates_are_led(state: SelectionState)
    requires
        forall|ask: Ask, c: int|
            #![trigger asks(state.problem, ask), state.undecided(c)]
            asks(state.problem, ask) && 0 <= c < state.problem.n() && state.undecided(c)
                ==> ask.gain(state.problem.candidates[c]) > 0,
    ensures
        is_led(state),
{
    let p = state.problem;
    let lead = rate_ask(p);
    assert(asks(p, lead));
    assert forall|ask: Ask| #[trigger] asks(p, ask) implies lead.agrees(ask, state) by {
        assert forall|c: int| 0 <= c < p.n() && #[trigger] state.undecided(c) implies (lead.gain(
            p.candidates[c],
        ) > 0 <==> ask.gain(p.candidates[c]) > 0) by {}
    }
    assert(leads(state, lead));
}

/// A replacement that asks for no lower feerate than the target does leads, where the absolute fee
/// is never more.
pub proof fn higher_replacement_leads(state: SelectionState)
    requires
        state.problem.target.fee.replace matches Some(replace)
            && replace.incremental_relay_feerate@ >= state.problem.target.fee.rate@
            && state.problem.target.fee.absolute <= replace.min_fee(lightest(state.problem)),
    ensures
        is_led(state),
{
    let p = state.problem;
    let replace = p.target.fee.replace->0;
    let (lead, other) = (replacement_ask(replace), rate_ask(p));
    assert forall|weight: int| weight >= lightest(p) implies #[trigger] other.owed(weight)
        <= lead.owed(weight) by {
        let v = feerate::ceil(weight, 4);
        assert(v * other.rate@ <= v * lead.rate@) by (nonlinear_arith)
            requires
                0 <= v,
                other.rate@ <= lead.rate@,
        ;
    }
    assert(lead.outweighs(other, p));
    assert(lead.outweighs(lead, p));
    assert(leads(state, lead));
}

/// What rounding adds to the fee on a weight, in 4000ths of a satoshi.
pub open spec fn rounded_by(rate: FeeRate, weight: int) -> int {
    4000 * rate.fee(weight) - rate@ * weight
}

/// Whether rounding and framing make no more than a given difference between `t` and the candidates
/// that are taken one after the other. Rounding adds `lift` to what `t` owes at each feerate, and
/// no more than that and `slack` to what is taken, priced with the framing of `t`: both are in
/// 4000ths of a satoshi. The framing of what is taken weighs at most `spare` more than that of `t`.
/// And `t` itself pays `slack` more than it owes, and leaves `spare` to the weight limit.
pub open spec fn takes_within(
    state: SelectionState,
    t: Seq<bool>,
    lift: spec_fn(Ask) -> int,
    slack: int,
    spare: int,
) -> bool {
    let p = state.problem;
    let none = DrainWeights::spec_none();
    let weight = p.tx_weight(t, none);
    &&& 0 <= slack
    &&& 0 <= spare
    &&& p.target.max_weight matches Some(max_weight) ==> weight + spare <= max_weight
    &&& forall|ask: Ask| #[trigger]
        asks(p, ask) ==> {
            &&& 4000 * (p.fee_paid(t, 0) - ask.fixed) >= ask.rate@ * weight + lift(ask) + slack
            &&& 4000 * (p.fee_owed(t, none) - ask.fixed) >= ask.rate@ * weight + lift(ask)
        }
    &&& forall|ask: Ask, k: int|
        #![trigger asks(p, ask), state.taking(k)]
        asks(p, ask) && 0 <= k <= state.unselected().len() ==> {
            let s = state.taking(k).selected;
            4000 * ask.rate.fee(p.tx_weight(s, none)) <= ask.rate@ * (p.weight_of(s) + frame(p, t))
                + lift(ask) + slack
        }
    &&& forall|k: int|
        0 <= k <= state.unselected().len() ==> overhead(p, (#[trigger] state.taking(k)).selected)
            <= overhead(p, t) + spare
}

/// Whether rounding adds no more to the fee of what is taken than to that of `t`, at each feerate,
/// with what its framing weighs less, and its framing weighs no more.
pub open spec fn rounds_no_more(state: SelectionState, t: Seq<bool>) -> bool {
    let p = state.problem;
    let none = DrainWeights::spec_none();
    forall|ask: Ask, k: int|
        #![trigger asks(p, ask), state.taking(k)]
        asks(p, ask) && 0 <= k <= state.unselected().len() ==> {
            let s = state.taking(k).selected;
            let saved = overhead(p, t) - overhead(p, s);
            &&& 0 <= saved
            &&& rounded_by(ask.rate, p.tx_weight(s, none)) <= rounded_by(
                ask.rate,
                p.tx_weight(t, none),
            ) + ask.rate@ * saved
        }
}

/// Where rounding adds no more to what is taken than to a selection that covers the target, it
/// makes no difference.
proof fn rounding_makes_no_difference(state: SelectionState, t: Seq<bool>)
    requires
        state.wf(),
        state.extended_by(t),
        !lowest_fee::has_ancestors(state.problem),
        state.problem.funded(t, Drain::spec_none()),
        state.problem.within_max_weight(t, DrainWeights::spec_none()),
        rounds_no_more(state, t),
    ensures
        ({
            let weight = state.problem.tx_weight(t, DrainWeights::spec_none());
            takes_within(state, t, |ask: Ask| rounded_by(ask.rate, weight), 0, 0)
        }),
{
    let p = state.problem;
    let none = DrainWeights::spec_none();
    let weight = p.tx_weight(t, none);
    let lift = |ask: Ask| rounded_by(ask.rate, weight);
    most_is_owed(p, t);
    assert forall|ask: Ask| #[trigger] asks(p, ask) implies {
        &&& 4000 * (p.fee_paid(t, 0) - ask.fixed) >= ask.rate@ * weight + lift(ask) + 0
        &&& 4000 * (p.fee_owed(t, none) - ask.fixed) >= ask.rate@ * weight + lift(ask)
    } by {
        assert(ask.owed(weight) <= p.fee_owed(t, none));
    }
    assert forall|ask: Ask, k: int|
        #![trigger asks(p, ask), state.taking(k)]
        asks(p, ask) && 0 <= k <= state.unselected().len() implies {
        let s = state.taking(k).selected;
        4000 * ask.rate.fee(p.tx_weight(s, none)) <= ask.rate@ * (p.weight_of(s) + frame(p, t))
            + lift(ask) + 0
    } by {
        let s = state.taking(k).selected;
        let saved = overhead(p, t) - overhead(p, s);
        let lighter = p.tx_weight(s, none);
        assert(lighter + saved == p.weight_of(s) + frame(p, t));
        assert(ask.rate@ * (lighter + saved) == ask.rate@ * lighter + ask.rate@ * saved)
            by (nonlinear_arith);
    }
    assert forall|k: int| 0 <= k <= state.unselected().len() implies overhead(
        p,
        (#[trigger] state.taking(k)).selected,
    ) <= overhead(p, t) + 0 by {
        assert(asks(p, rate_ask(p)));
    }
}

/// What a selection without ancestors owes is what is asked most.
pub proof fn most_is_owed(p: ProblemView, s: Seq<bool>)
    requires
        p.wf(),
        s.len() == p.n(),
        !lowest_fee::has_ancestors(p),
    ensures
        ({
            let weight = p.tx_weight(s, DrainWeights::spec_none());
            let owed = p.fee_owed(s, DrainWeights::spec_none());
            &&& lightest(p) <= weight
            &&& p.target.fee.absolute <= owed
            &&& forall|ask: Ask| #[trigger] asks(p, ask) ==> ask.owed(weight) <= owed
            &&& owed == p.target.fee.absolute || exists|ask: Ask| #[trigger]
                asks(p, ask) && ask.owed(weight) == owed
        }),
{
    let weight = p.tx_weight(s, DrainWeights::spec_none());
    let owed = p.fee_owed(s, DrainWeights::spec_none());
    p.no_ancestors_no_bump(s);
    p.selection_bounded(s);
    p.fees_bounded(s, DrainWeights::spec_none());
    assert(asks(p, rate_ask(p)));
    assert(rate_ask(p).owed(weight) == p.rate_fee(s, DrainWeights::spec_none()));
    if let Some(replace) = p.target.fee.replace {
        let other = replacement_ask(replace);
        assert(asks(p, other));
        assert(other.owed(weight) == replace.min_fee(weight));
    }
}

/// A sum over what is taken is no less than the sum over a selection that gives up terms that are
/// not negative for terms that are not positive.
pub proof fn taking_sums_most(state: SelectionState, t: Seq<bool>, k: int, h: spec_fn(int) -> int)
    requires
        state.wf(),
        state.extended_by(t),
        0 <= k <= state.unselected().len(),
        forall|i: int| 0 <= i < k ==> h(#[trigger] state.unselected()[i] as int) >= 0,
        forall|i: int|
            k <= i < state.unselected().len() ==> h(#[trigger] state.unselected()[i] as int) <= 0,
    ensures
        sums::over(t, h) <= sums::over(state.taking(k).selected, h),
{
    let s = state.taking(k).selected;
    let u = state.unselected();
    state.unselected_lists();
    let (f, g) = (
        |c: int| if t[c] { h(c) } else { 0 },
        |c: int| if s[c] { h(c) } else { 0 },
    );
    assert forall|c: int| 0 <= c < t.len() implies #[trigger] f(c) <= g(c) by {
        if t[c] && !s[c] {
            assert(state.undecided(c));
            let i = choose|i: int| 0 <= i < u.len() && u[i] == c as usize;
            if i < k {
                assert(u.take(k)[i] == c as usize);
            }
        }
        if !t[c] && s[c] {
            let i = choose|i: int| 0 <= i < k && u.take(k)[i] == c as usize;
            assert(h(u[i] as int) >= 0);
        }
    }
    sums::lemma_sum_le(t.len() as int, f, g);
}

/// Taking candidates by density up to just before or just after one of them: no selection has more
/// value for its weight than that one would add.
proof fn taking_is_densest(state: SelectionState, t: Seq<bool>, last: int, k: int)
    requires
        state.wf(),
        state.extended_by(t),
        by_density(state),
        0 <= last < state.unselected().len(),
        k == last || k == last + 1,
    ensures
        ({
            let p = state.problem;
            let s = state.taking(k).selected;
            let c = p.candidates[state.unselected()[last] as int];
            c.weight * (p.value_of(t) - p.value_of(s)) <= c.value * (p.weight_of(t) - p.weight_of(s))
        }),
{
    let p = state.problem;
    let u = state.unselected();
    let s = state.taking(k).selected;
    let c = p.candidates[u[last] as int];
    let (v, w) = (c.value as int, c.weight as int);
    let value_at = |d: int| p.candidates[d].value as int;
    let weight_at = |d: int| p.candidates[d].weight as int;
    let h = |d: int| w * value_at(d) + (-v) * weight_at(d);
    assert forall|i: int| 0 <= i < u.len() implies (i <= last ==> h(#[trigger] u[i] as int) >= 0) && (
    last <= i ==> h(u[i] as int) <= 0) by {
        let d = p.candidates[u[i] as int];
        let (x, y) = (d.value as int, d.weight as int);
        assert(h(u[i] as int) == w * x - v * y) by (nonlinear_arith)
            requires
                h(u[i] as int) == w * x + (-v) * y,
        ;
        if i == last {
            assert(w * v - v * w == 0) by (nonlinear_arith);
        } else if i < last {
            assert(!Candidate::denser(c, d));
            assert(w * x - v * y >= 0) by (nonlinear_arith)
                requires
                    w == 0 && y == 0 || w > 0 && (y == 0 || v * y <= x * w),
                    0 <= x,
                    0 <= v,
            ;
        } else {
            assert(!Candidate::denser(d, c));
            assert(w * x - v * y <= 0) by (nonlinear_arith)
                requires
                    w == 0 || (y > 0 && x * w <= v * y),
                    0 <= y,
                    0 <= v,
            ;
        }
    }
    taking_sums_most(state, t, k, h);
    sums::lemma_over_linear(t, value_at, weight_at, h, w, -v);
    sums::lemma_over_linear(s, value_at, weight_at, h, w, -v);
    let (a, b) = (p.value_of(t), p.weight_of(t));
    let (x, y) = (p.value_of(s), p.weight_of(s));
    assert(w * (a - x) <= v * (b - y)) by (nonlinear_arith)
        requires
            w * a + (-v) * b <= w * x + (-v) * y,
    ;
}

/// Where some selection below a node covers the target, taking candidates by density covers it too
/// at some point, while all that are taken are worth having.
proof fn taking_covers_the_target(
    state: SelectionState,
    t: Seq<bool>,
    lift: spec_fn(Ask) -> int,
    slack: int,
    spare: int,
    lead: Ask,
) -> (k: int)
    requires
        state.wf(),
        state.extended_by(t),
        by_density(state),
        takes_within(state, t, lift, slack, spare),
        leads(state, lead),
        state.problem.funded(t, Drain::spec_none()),
        !lowest_fee::has_ancestors(state.problem),
    ensures
        0 <= k <= state.unselected().len(),
        state.problem.funded(state.taking(k).selected, Drain::spec_none()),
        forall|i: int|
            0 <= i < k ==> lead.likes(
                state.problem.candidates[#[trigger] state.unselected()[i] as int],
            ),
{
    let p = state.problem;
    let u = state.unselected();
    let k = first_disliked(state, lead, 0);
    let s = state.taking(k).selected;
    let weight = p.tx_weight(s, DrainWeights::spec_none());
    let paid = p.fee_paid(s, 0);
    most_is_owed(p, s);
    most_is_owed(p, t);
    state.unselected_lists();
    assert forall|ask: Ask| #[trigger] asks(p, ask) implies ask.owed(weight) <= paid by {
        assert(asks(p, lead));
        gains_split(state, lead, lead, k);
        most_is_paid(state, t, k, lead, frame(p, t));
        assert(4000 * lead.rate.fee(p.tx_weight(state.taking(k).selected, DrainWeights::spec_none()))
            <= lead.rate@ * (p.weight_of(s) + frame(p, t)) + lift(lead) + slack);
        assert(lead.owed(weight) <= paid);
        if !lead.outweighs(ask, p) {
            gains_split(state, lead, ask, k);
            most_is_paid(state, t, k, ask, frame(p, t));
            assert(4000 * ask.rate.fee(
                p.tx_weight(state.taking(k).selected, DrainWeights::spec_none()),
            ) <= ask.rate@ * (p.weight_of(s) + frame(p, t)) + lift(ask) + slack);
        }
    }
    assert(p.target.fee.absolute <= paid) by {
        if p.target.fee.absolute <= lead.owed(lightest(p)) {
            lead.rate.fee_monotone(lightest(p), weight);
        } else {
            if k < u.len() {
                assert(state.undecided(u[k] as int));
            }
            taking_sums_most(state, t, k, |c: int| p.candidates[c].value as int);
        }
    }
    assert(p.funded(state.taking(k).selected, Drain::spec_none()));
    k
}

/// Where `ask` agrees with what leads, or leads itself, candidates bring what their weight costs up
/// to the first one that is not worth having, and no more from there on.
proof fn gains_split(state: SelectionState, lead: Ask, ask: Ask, k: int)
    requires
        state.wf(),
        by_density(state),
        ask == lead || lead.agrees(ask, state),
        0 <= k <= state.unselected().len(),
        forall|i: int|
            0 <= i < k ==> lead.likes(
                state.problem.candidates[#[trigger] state.unselected()[i] as int],
            ),
        k < state.unselected().len() ==> !lead.likes(
            state.problem.candidates[state.unselected()[k] as int],
        ),
    ensures
        forall|i: int|
            0 <= i < k ==> ask.gain(
                state.problem.candidates[#[trigger] state.unselected()[i] as int],
            ) >= 0,
        forall|i: int|
            k <= i < state.unselected().len() ==> ask.gain(
                state.problem.candidates[#[trigger] state.unselected()[i] as int],
            ) <= 0,
{
    let p = state.problem;
    let u = state.unselected();
    state.unselected_lists();
    assert forall|i: int| 0 <= i < k implies ask.gain(p.candidates[#[trigger] u[i] as int]) >= 0 by {
        assert(state.undecided(u[i] as int));
        assert(ask.rate@ * 0 == 0) by (nonlinear_arith);
    }
    if k < u.len() {
        assert(state.undecided(u[k] as int));
        gains_fall(state, ask, k);
    }
}

/// Taking all that bring what their weight costs, and no others, pays the most for its weight.
proof fn most_is_paid(state: SelectionState, t: Seq<bool>, k: int, ask: Ask, base: int)
    requires
        state.wf(),
        state.extended_by(t),
        0 <= k <= state.unselected().len(),
        forall|i: int|
            0 <= i < k ==> ask.gain(
                state.problem.candidates[#[trigger] state.unselected()[i] as int],
            ) >= 0,
        forall|i: int|
            k <= i < state.unselected().len() ==> ask.gain(
                state.problem.candidates[#[trigger] state.unselected()[i] as int],
            ) <= 0,
    ensures
        ({
            let p = state.problem;
            let s = state.taking(k).selected;
            let rate = ask.rate@;
            4000 * p.fee_paid(t, 0) - rate * (p.weight_of(t) + base) <= 4000 * p.fee_paid(
                s,
                0,
            ) - rate * (p.weight_of(s) + base)
        }),
{
    let p = state.problem;
    let rate = ask.rate@ as int;
    let value_at = |d: int| p.candidates[d].value as int;
    let weight_at = |d: int| p.candidates[d].weight as int;
    let h = |d: int| 4000 * value_at(d) + (-rate) * weight_at(d);
    assert forall|i: int| 0 <= i < state.unselected().len() implies h(
        #[trigger] state.unselected()[i] as int,
    ) == ask.gain(p.candidates[state.unselected()[i] as int]) by {
        let w = p.candidates[state.unselected()[i] as int].weight as int;
        assert((-rate) * w == -(rate * w)) by (nonlinear_arith);
    }
    taking_sums_most(state, t, k, h);
    let s = state.taking(k).selected;
    sums::lemma_over_linear(t, value_at, weight_at, h, 4000, -rate);
    sums::lemma_over_linear(s, value_at, weight_at, h, 4000, -rate);
    let (b, y, f) = (p.weight_of(t), p.weight_of(s), base);
    assert((-rate) * b - (-rate) * y == rate * (y + f) - rate * (b + f)) by (nonlinear_arith);
}

/// The first undecided candidate that is not worth having.
proof fn first_disliked(state: SelectionState, lead: Ask, from: int) -> (k: int)
    requires
        0 <= from <= state.unselected().len(),
        forall|i: int|
            0 <= i < from ==> lead.likes(
                state.problem.candidates[#[trigger] state.unselected()[i] as int],
            ),
    ensures
        0 <= k <= state.unselected().len(),
        forall|i: int|
            0 <= i < k ==> lead.likes(
                state.problem.candidates[#[trigger] state.unselected()[i] as int],
            ),
        k < state.unselected().len() ==> !lead.likes(
            state.problem.candidates[state.unselected()[k] as int],
        ),
    decreases state.unselected().len() - from,
{
    if from < state.unselected().len() && lead.likes(
        state.problem.candidates[state.unselected()[from] as int],
    ) {
        first_disliked(state, lead, from + 1)
    } else {
        from
    }
}

/// Where a candidate with weight brings no more than its weight costs, neither does any after it.
proof fn gains_fall(state: SelectionState, ask: Ask, from: int)
    requires
        by_density(state),
        0 <= from < state.unselected().len(),
        ask.gain(state.problem.candidates[state.unselected()[from] as int]) <= 0,
        state.problem.candidates[state.unselected()[from] as int].weight > 0,
    ensures
        forall|i: int|
            from <= i < state.unselected().len() ==> ask.gain(
                state.problem.candidates[#[trigger] state.unselected()[i] as int],
            ) <= 0,
{
    let p = state.problem;
    let u = state.unselected();
    let c = p.candidates[u[from] as int];
    let (v, w, rate) = (c.value as int, c.weight as int, ask.rate@ as int);
    assert forall|i: int| from <= i < u.len() implies ask.gain(p.candidates[#[trigger] u[i] as int])
        <= 0 by {
        if i > from {
            let d = p.candidates[u[i] as int];
            let (x, y) = (d.value as int, d.weight as int);
            assert(!Candidate::denser(d, c));
            assert(4000 * x - rate * y <= 0) by (nonlinear_arith)
                requires
                    4000 * v - rate * w <= 0,
                    x * w <= v * y,
                    0 < w,
                    0 < y,
            ;
        }
    }
}

/// Where taking candidates covers the target at some point, it does so at some point for the first
/// time.
proof fn first_funded_exists(state: SelectionState, k: int) -> (first: int)
    requires
        1 <= k <= state.unselected().len(),
        state.problem.funded(state.taking(k).selected, Drain::spec_none()),
    ensures
        LowestFee::first_funded(state, first),
    decreases k,
{
    if exists|j: int|
        1 <= j < k && state.problem.funded(
            #[trigger] state.taking(j).selected,
            Drain::spec_none(),
        ) {
        let j = choose|j: int|
            1 <= j < k && state.problem.funded(
                #[trigger] state.taking(j).selected,
                Drain::spec_none(),
            );
        first_funded_exists(state, j)
    } else {
        k
    }
}

/// What taking the last of `k` candidates adds.
pub proof fn taking_last(state: SelectionState, k: int)
    requires
        state.wf(),
        1 <= k <= state.unselected().len(),
    ensures
        ({
            let p = state.problem;
            let last = state.unselected()[k - 1] as int;
            let (less, full) = (state.taking(k - 1).selected, state.taking(k).selected);
            let none = DrainWeights::spec_none();
            &&& state.taking(k).deselect(last).selected == less
            &&& p.value_of(full) == p.value_of(less) + p.candidates[last].value
            &&& p.tx_weight(full, none) >= p.tx_weight(less, none) + p.candidates[last].weight
            &&& less.len() == p.n()
            &&& full.len() == p.n()
        }),
{
    let p = state.problem;
    let u = state.unselected();
    let last = u[k - 1] as int;
    let less = state.taking(k - 1).selected;
    state.unselected_lists();
    state.taking_next(k - 1);
    assert(!less[last]) by {
        let before = u.take(k - 1);
        if before.contains(last as usize) {
            let i = choose|i: int| 0 <= i < before.len() && before[i] == last as usize;
            assert(u[i] != u[k - 1]);
        }
    }
    assert(less.update(last, true).update(last, false) =~= less);
    p.sums_insert(less, last);
    assert(bitset::subset(less, less.update(last, true)));
    p.sums_monotone(less, less.update(last, true));
}

/// The arithmetic of completing a selection by a part of a candidate: the value of the part is no
/// more than what any selection pays that gains no more value for its weight, and no heavier.
proof fn part_is_enough(
    deficit: int,
    v: int,
    w: int,
    rate: int,
    gained: int,
    more: int,
    weight: int,
    paid: int,
    score: int,
    lift: int,
    slack: int,
)
    requires
        0 < deficit,
        0 <= v,
        0 <= w,
        0 <= rate,
        0 < 4000 * v - rate * w,
        4000 * deficit <= rate * weight - 4000 * paid + lift + slack,
        w * gained <= v * more,
        4000 * (paid + gained) >= rate * (weight + more) + lift + slack,
        4000 * score >= rate * (weight + more) + lift,
    ensures
        deficit * 4000 * w <= (4000 * v - rate * w) * more,
        4000 * ((deficit * 4000 * v) / (4000 * v - rate * w) + paid) <= 4000 * score + slack,
        0 <= more,
        0 <= (deficit * 4000 * v) / (4000 * v - rate * w),
{
    let g = 4000 * v - rate * w;
    let d = 4000 * deficit;
    assert(rate * (weight + more) == rate * weight + rate * more) by (nonlinear_arith);
    assert(4000 * gained >= d + rate * more);
    assert(w * (4000 * gained) >= w * (d + rate * more)) by (nonlinear_arith)
        requires
            4000 * gained >= d + rate * more,
            0 <= w,
    ;
    assert(g * more >= d * w) by (nonlinear_arith)
        requires
            w * (4000 * gained) >= w * (d + rate * more),
            w * gained <= v * more,
            g == 4000 * v - rate * w,
    ;
    assert(0 <= d * w) by (nonlinear_arith)
        requires
            0 <= d,
            0 <= w,
    ;
    assert(0 <= more) by (nonlinear_arith)
        requires
            g * more >= 0,
            0 < g,
    ;
    assert(d * w == deficit * 4000 * w) by (nonlinear_arith)
        requires
            d == 4000 * deficit,
    ;
    let n = deficit * 4000 * v;
    assert(n == d * v) by (nonlinear_arith)
        requires
            d == 4000 * deficit,
            n == deficit * 4000 * v,
    ;
    assert(0 <= n) by (nonlinear_arith)
        requires
            n == d * v,
            0 <= d,
            0 <= v,
    ;
    let q = n / g;
    assert(q * g <= n && 0 <= q) by (nonlinear_arith)
        requires
            q == n / g,
            0 < g,
            0 <= n,
    ;
    let rest = 4000 * (score - paid) + slack;
    assert(rest >= d + rate * more);
    assert(g * rest >= g * (d + rate * more)) by (nonlinear_arith)
        requires
            rest >= d + rate * more,
            0 < g,
    ;
    assert(g * (d + rate * more) == g * d + rate * (g * more)) by (nonlinear_arith);
    assert(rate * (g * more) >= rate * (d * w)) by (nonlinear_arith)
        requires
            g * more >= d * w,
            0 <= rate,
    ;
    assert(g * d + rate * (d * w) == 4000 * (d * v)) by (nonlinear_arith)
        requires
            g == 4000 * v - rate * w,
    ;
    assert(rest >= 4000 * q) by (nonlinear_arith)
        requires
            g * rest >= 4000 * n,
            q * g <= n,
            0 < g,
    ;
}

/// What a selection weighs more than another one that pays no more than both weigh, where it gains
/// no more value for its weight than a candidate that brings more than its weight costs.
proof fn is_no_lighter(v: int, w: int, rate: int, gained: int, more: int)
    requires
        0 <= w,
        0 < v,
        0 < 4000 * v - rate * w,
        w * gained <= v * more,
        4000 * gained >= rate * more,
    ensures
        0 <= more,
{
    let g = 4000 * v - rate * w;
    assert(w * (4000 * gained) >= w * (rate * more)) by (nonlinear_arith)
        requires
            4000 * gained >= rate * more,
            0 <= w,
    ;
    assert(g * more >= 0) by (nonlinear_arith)
        requires
            w * (4000 * gained) >= w * (rate * more),
            w * gained <= v * more,
            g == 4000 * v - rate * w,
    ;
    assert(0 <= more) by (nonlinear_arith)
        requires
            g * more >= 0,
            0 < g,
    ;
}

/// Whether `k` candidates are taken by density until the target is covered, where `t` covers it.
spec fn completes(
    state: SelectionState,
    t: Seq<bool>,
    lift: spec_fn(Ask) -> int,
    slack: int,
    spare: int,
    lead: Ask,
    k: int,
) -> bool {
    &&& state.wf()
    &&& state.extended_by(t)
    &&& by_density(state)
    &&& takes_within(state, t, lift, slack, spare)
    &&& leads(state, lead)
    &&& state.problem.funded(t, Drain::spec_none())
    &&& !lowest_fee::has_ancestors(state.problem)
    &&& !state.problem.funded(state.selected, Drain::spec_none())
    &&& LowestFee::first_funded(state, k)
}

/// The candidate that covers the target, when candidates are taken one after the other, brings more
/// than its weight costs by what leads and by what agrees with that, and carries value. Without it
/// the target is not covered.
proof fn last_is_worth_having(
    state: SelectionState,
    t: Seq<bool>,
    lift: spec_fn(Ask) -> int,
    slack: int,
    spare: int,
    lead: Ask,
    k: int,
)
    requires
        completes(state, t, lift, slack, spare, lead, k),
    ensures
        ({
            let p = state.problem;
            let c = p.candidates[state.unselected()[k - 1] as int];
            &&& c.value > 0
            &&& !p.funded(state.taking(k - 1).selected, Drain::spec_none())
            &&& forall|ask: Ask| #[trigger]
                asks(p, ask) && !lead.outweighs(ask, p) ==> ask.gain(c) > 0
            &&& lead.gain(c) > 0
        }),
{
    let p = state.problem;
    let u = state.unselected();
    let none = DrainWeights::spec_none();
    let some = taking_covers_the_target(state, t, lift, slack, spare, lead);
    state.taking_none();
    state.unselected_lists();
    taking_last(state, k);
    let (less, full) = (state.taking(k - 1).selected, state.taking(k).selected);
    assert(!p.funded(state.taking(k - 1).selected, Drain::spec_none())) by {
        if k == 1 {
            assert(less == state.selected);
        }
    }
    let c = p.candidates[u[k - 1] as int];
    most_is_owed(p, less);
    most_is_owed(p, full);
    let (weight, heavier) = (p.tx_weight(less, none), p.tx_weight(full, none));
    assert(c.value > 0) by {
        if p.fee_owed(less, none) != p.target.fee.absolute {
            let ask = choose|ask: Ask| #[trigger]
                asks(p, ask) && ask.owed(weight) == p.fee_owed(less, none);
            ask.rate.fee_monotone(weight, heavier);
        }
    }
    assert(k <= some) by {
        if some < k {
            if some == 0 {
                assert(state.taking(0) == state);
            }
            assert(!p.funded(state.taking(some).selected, Drain::spec_none()));
        }
    }
    assert(lead.likes(p.candidates[u[k - 1] as int]));
    assert(state.undecided(u[k - 1] as int));
    assert(lead.gain(c) > 0) by {
        assert(lead.rate@ * 0 == 0) by (nonlinear_arith);
    }
}

/// What is taken before the target is covered weighs no more than `t`, and pays no more than a fee
/// that `t` owes and `slack`.
proof fn short_of_the_target(
    state: SelectionState,
    t: Seq<bool>,
    lift: spec_fn(Ask) -> int,
    slack: int,
    spare: int,
    lead: Ask,
    k: int,
)
    requires
        completes(state, t, lift, slack, spare, lead, k),
    ensures
        ({
            let p = state.problem;
            let less = state.taking(k - 1).selected;
            &&& p.weight_of(less) <= p.weight_of(t)
            &&& 4000 * p.fee_paid(less, 0) <= 4000 * p.fee_owed(t, DrainWeights::spec_none()) + slack
        }),
{
    let p = state.problem;
    let none = DrainWeights::spec_none();
    last_is_worth_having(state, t, lift, slack, spare, lead, k);
    taking_last(state, k);
    let less = state.taking(k - 1).selected;
    let c = p.candidates[state.unselected()[k - 1] as int];
    let (v, w) = (c.value as int, c.weight as int);
    let gained = p.value_of(t) - p.value_of(less);
    let more = p.weight_of(t) - p.weight_of(less);
    let (weight, heavier) = (p.tx_weight(less, none), p.tx_weight(t, none));
    let paid = p.fee_paid(less, 0);
    taking_is_densest(state, t, k - 1, k - 1);
    most_is_owed(p, less);
    most_is_owed(p, t);
    if paid < p.target.fee.absolute {
        assert(0 <= more) by (nonlinear_arith)
            requires
                w * gained <= v * more,
                0 < gained,
                0 <= w,
                0 < v,
        ;
    } else {
        let asked = choose|ask: Ask| #[trigger]
            asks(p, ask) && ask.owed(weight) == p.fee_owed(less, none);
        let ask = if lead.outweighs(asked, p) {
            lead
        } else {
            asked
        };
        assert(asked.owed(weight) <= ask.owed(weight));
        assert(asks(p, ask));
        assert(paid < ask.owed(weight));
        let rate = ask.rate@ as int;
        let base = p.weight_of(less) + frame(p, t);
        assert(4000 * ask.rate.fee(p.tx_weight(state.taking(k - 1).selected, none)) <= rate * base
            + lift(ask) + slack);
        assert(rate * (base + more) == rate * base + rate * more) by (nonlinear_arith);
        assert(heavier == base + more);
        assert(4000 * gained >= rate * more);
        is_no_lighter(v, w, rate, gained, more);
        assert(0 <= rate * more) by (nonlinear_arith)
            requires
                0 <= rate,
                0 <= more,
        ;
    }
}

/// What a selection owes pays what is asked for its weight.
pub proof fn fee_covers_the_weight(ask: Ask, p: ProblemView, t: Seq<bool>)
    requires
        p.wf(),
        t.len() == p.n(),
        !lowest_fee::has_ancestors(p),
        asks(p, ask),
    ensures
        4000 * (p.fee_owed(t, DrainWeights::spec_none()) - ask.fixed) >= ask.rate@ * p.tx_weight(
            t,
            DrainWeights::spec_none(),
        ),
{
    let weight = p.tx_weight(t, DrainWeights::spec_none());
    most_is_owed(p, t);
    p.fees_bounded(t, DrainWeights::spec_none());
    assert(ask.owed(weight) <= p.fee_owed(t, DrainWeights::spec_none()));
    ask.rate.fee_is_exact(weight, ask.rate.fee(weight));
    ask.rate.fee_wu_at_most_fee(weight);
    assert(ask.rate@ * weight == weight * ask.rate@) by (nonlinear_arith);
}

/// The part of the last candidate that closes the gap to what is asked: there is one, it weighs no
/// more than what `t` adds, and with it no more is paid than `t` owes and `slack`.
proof fn part_closes_the_gap(
    state: SelectionState,
    t: Seq<bool>,
    lift: spec_fn(Ask) -> int,
    slack: int,
    spare: int,
    lead: Ask,
    k: int,
    ask: Ask,
)
    requires
        completes(state, t, lift, slack, spare, lead, k),
        asks(state.problem, ask),
    ensures
        ({
            let p = state.problem;
            let none = DrainWeights::spec_none();
            let less = state.taking(k - 1).selected;
            let c = p.candidates[state.unselected()[k - 1] as int];
            let paid = p.fee_paid(less, 0);
            let deficit = ask.fixed + ask.rate.fee_wu(p.tx_weight(less, none)) - paid;
            let part = lowest_fee::scale_for(deficit, c.value * 4000 - c.weight * ask.rate@, 4000);
            &&& part matches Some(x)
            &&& 0 < x.1
            &&& x.0 * c.weight <= (p.weight_of(t) - p.weight_of(less)) * x.1
            &&& 0 <= (x.0 * c.value) / x.1
            &&& 4000 * ((x.0 * c.value) / x.1 + paid) <= 4000 * p.fee_owed(t, none) + slack
        }),
{
    let p = state.problem;
    let none = DrainWeights::spec_none();
    taking_last(state, k);
    short_of_the_target(state, t, lift, slack, spare, lead, k);
    last_is_worth_having(state, t, lift, slack, spare, lead, k);
    let (less, full) = (state.taking(k - 1).selected, state.taking(k).selected);
    let c = p.candidates[state.unselected()[k - 1] as int];
    let (v, w, rate) = (c.value as int, c.weight as int, ask.rate@ as int);
    let (weight, whole, heavier) = (
        p.tx_weight(less, none),
        p.tx_weight(full, none),
        p.tx_weight(t, none),
    );
    let paid = p.fee_paid(less, 0);
    let deficit = ask.fixed + ask.rate.fee_wu(weight) - paid;
    let more = p.weight_of(t) - p.weight_of(less);
    let g = 4000 * v - rate * w;
    assert(c.value * 4000 - c.weight * ask.rate@ == g) by (nonlinear_arith)
        requires
            c.value == v,
            c.weight == w,
            ask.rate@ == rate,
            g == 4000 * v - rate * w,
    ;
    if deficit > 0 {
        let base = p.weight_of(less) + frame(p, t);
        let gained = p.value_of(t) - p.value_of(less);
        p.fees_bounded(less, none);
        ask.rate.fee_is_exact(weight, paid - ask.fixed);
        ask.rate.fee_wu_at_most_fee(weight);
        most_is_owed(p, full);
        p.fees_bounded(full, none);
        fee_covers_the_weight(ask, p, full);
        assert(0 < g) by {
            assert(whole * rate >= weight * rate + w * rate) by (nonlinear_arith)
                requires
                    whole >= weight + w,
                    0 <= rate,
            ;
            assert(rate * whole == whole * rate && rate * w == w * rate) by (nonlinear_arith);
        }
        assert(4000 * ask.rate.fee(p.tx_weight(state.taking(k - 1).selected, none)) <= rate * base
            + lift(ask) + slack);
        taking_is_densest(state, t, k - 1, k - 1);
        assert(heavier == base + more);
        part_is_enough(
            deficit,
            v,
            w,
            rate,
            gained,
            more,
            base,
            paid - ask.fixed,
            p.fee_owed(t, none) - ask.fixed,
            lift(ask),
            slack,
        );
        assert(g * more == more * g) by (nonlinear_arith);
    } else {
        assert(0 * c.weight == 0 && 0 * c.value == 0) by (nonlinear_arith);
    }
}

/// Where the candidates that are taken cover the target exactly, they pay no more than `t` owes and
/// `slack`.
proof fn whole_is_enough(
    state: SelectionState,
    t: Seq<bool>,
    lift: spec_fn(Ask) -> int,
    slack: int,
    spare: int,
    lead: Ask,
    k: int,
)
    requires
        completes(state, t, lift, slack, spare, lead, k),
        state.problem.excess(state.taking(k).selected, Drain::spec_none()) == 0,
    ensures
        4000 * state.problem.fee_paid(state.taking(k).selected, 0) <= 4000 * state.problem.fee_owed(
            t,
            DrainWeights::spec_none(),
        ) + slack,
{
    let p = state.problem;
    let none = DrainWeights::spec_none();
    let full = state.taking(k).selected;
    let c = p.candidates[state.unselected()[k - 1] as int];
    let (weight, heavier) = (p.tx_weight(full, none), p.tx_weight(t, none));
    taking_last(state, k);
    last_is_worth_having(state, t, lift, slack, spare, lead, k);
    most_is_owed(p, full);
    most_is_owed(p, t);
    if p.fee_owed(full, none) != p.target.fee.absolute {
        let asked = choose|ask: Ask| #[trigger]
            asks(p, ask) && ask.owed(weight) == p.fee_owed(full, none);
        let ask = if lead.outweighs(asked, p) {
            lead
        } else {
            asked
        };
        assert(asked.owed(weight) <= ask.owed(weight));
        assert(asks(p, ask));
        assert(p.fee_paid(full, 0) == ask.owed(weight));
        let (v, w, rate) = (c.value as int, c.weight as int, ask.rate@ as int);
        let base = p.weight_of(full) + frame(p, t);
        assert(4000 * ask.rate.fee(p.tx_weight(state.taking(k).selected, none)) <= rate * base
            + lift(ask) + slack);
        let gained = p.value_of(t) - p.value_of(full);
        let more = p.weight_of(t) - p.weight_of(full);
        taking_is_densest(state, t, k - 1, k);
        assert(heavier == base + more);
        assert(rate * (base + more) == rate * base + rate * more) by (nonlinear_arith);
        is_no_lighter(v, w, rate, gained, more);
        assert(0 <= rate * more) by (nonlinear_arith)
            requires
                0 <= rate,
                0 <= more,
        ;
    }
}

impl LowestFee {
    /// Where a selection does not cover the target and no ancestors can be dragged in, no valid
    /// selection below it scores less than its bound by more than what rounding and framing account
    /// for, as long as the candidates come by descending value per weight unit and something that
    /// is asked leads.
    #[verifier::spinoff_prover]
    #[verifier::rlimit(40)]
    pub proof fn greedy_bound_holds(
        self,
        state: SelectionState,
        t: Seq<bool>,
        lift: spec_fn(Ask) -> int,
        slack: int,
        spare: int,
    )
        requires
            state.wf(),
            self.accepts(state.problem),
            state.extended_by(t),
            self.score_of(state.problem, t) is Some,
            !lowest_fee::has_ancestors(state.problem),
            !state.problem.funded(state.selected, Drain::spec_none()),
            by_density(state),
            is_led(state),
            takes_within(state, t, lift, slack, spare),
        ensures
            self.unfunded_bound(state) is Some,
            4000 * self.unfunded_bound(state)->0 <= 4000 * self.score_of(state.problem, t)->0
                + slack,
            self.unfunded_bound(state)->0 >= -u64::MAX,
    {
        let p = state.problem;
        let none = DrainWeights::spec_none();
        let u = state.unselected();
        let lead = choose|lead: Ask| #[trigger] leads(state, lead);
        self.score_is_a_fee(p, t);
        state.taking_none();
        let some = taking_covers_the_target(state, t, lift, slack, spare, lead);
        assert(some >= 1) by {
            if some == 0 {
                assert(state.taking(0) == state);
            }
        }
        let found = first_funded_exists(state, some);
        assert(Self::first_funded(state, found));
        let k = choose|k: int| Self::first_funded(state, k);
        assert(Self::first_funded(state, k));
        assert(completes(state, t, lift, slack, spare, lead, k));
        taking_last(state, k);
        let (less, full) = (state.taking(k - 1).selected, state.taking(k).selected);
        let c = p.candidates[u[k - 1] as int];
        let fee = p.target.fee;
        let weight = p.tx_weight(less, none);
        let paid = p.fee_paid(less, 0);
        let more = p.weight_of(t) - p.weight_of(less);
        p.selection_bounded(less);
        p.selection_bounded(full);
        p.fees_bounded(less, none);
        p.fees_bounded(full, none);
        p.no_ancestors_no_bump(less);
        p.no_ancestors_no_bump(t);
        if p.excess(full, Drain::spec_none()) == 0 {
            whole_is_enough(state, t, lift, slack, spare, lead, k);
            p.drain_owes_more(full, self.drain_weights);
            self.long_term_feerate.fee_wu_at_most_fee(0);
            self.long_term_feerate.fee_wu_at_most_fee(self.drain_weights.spend_weight as int);
            assert(self.change_value(p, full) is None);
            assert(self.long_term_fee(p, full) == p.fee_paid(full, 0));
        } else {
            short_of_the_target(state, t, lift, slack, spare, lead, k);
            last_is_worth_having(state, t, lift, slack, spare, lead, k);
            let ask = rate_ask(p);
            assert(asks(p, ask));
            part_closes_the_gap(state, t, lift, slack, spare, lead, k, ask);
            let for_rate = lowest_fee::scale_for(
                p.rate_fee_wu(less, none) - paid,
                c.value * 4000 - c.weight * fee.rate@,
                4000,
            );
            let for_replacement = match fee.replace {
                Some(replace) => lowest_fee::scale_for(
                    replace.min_fee_wu(weight) - paid,
                    c.value * 4000 - c.weight * replace.incremental_relay_feerate@,
                    4000,
                ),
                None => Some((0int, 1int)),
            };
            assert(0 * c.weight == 0 && 0 * c.value == 0) by (nonlinear_arith);
            if let Some(replace) = fee.replace {
                let ask = replacement_ask(replace);
                assert(asks(p, ask));
                part_closes_the_gap(state, t, lift, slack, spare, lead, k, ask);
            }
            let (x, y) = (for_rate->0, for_replacement->0);
            let lacking = fee.absolute - paid;
            let z = lowest_fee::scale_for(lacking, c.value as int, 1)->0;
            let (v, w) = (c.value as int, c.weight as int);
            if lacking > 0 {
                let gained = p.value_of(t) - p.value_of(less);
                taking_is_densest(state, t, k - 1, k - 1);
                most_is_owed(p, t);
                assert(lacking * 1 == lacking) by (nonlinear_arith);
                assert((lacking * v) / v == lacking) by (nonlinear_arith)
                    requires
                        v > 0,
                ;
                assert(lacking * w <= more * v) by (nonlinear_arith)
                    requires
                        w * gained <= v * more,
                        lacking <= gained,
                        0 <= w,
                ;
            }
            assert(z.0 * c.weight <= more * z.1 && 0 < z.1);
            if let Some(max_weight) = p.target.max_weight {
                let room = max_weight - weight;
                assert(overhead(p, state.taking(k - 1).selected) <= overhead(p, t) + spare);
                assert(more <= room);
                in_the_room(x.0 * c.weight, more, room, x.1);
                in_the_room(y.0 * c.weight, more, room, y.1);
                in_the_room(z.0 * c.weight, more, room, z.1);
            }
        }
    }
}

impl LowestFee {
    /// Where a selection does not cover the target and no ancestors can be dragged in, its bound
    /// holds for every valid selection below it to which rounding adds no less than to the
    /// candidates that are taken, as long as these come by descending value per weight unit and
    /// something that is asked leads.
    pub proof fn greedy_bound_holds_exactly(self, state: SelectionState, t: Seq<bool>)
        requires
            state.wf(),
            self.accepts(state.problem),
            state.extended_by(t),
            self.score_of(state.problem, t) is Some,
            !lowest_fee::has_ancestors(state.problem),
            !state.problem.funded(state.selected, Drain::spec_none()),
            by_density(state),
            is_led(state),
            rounds_no_more(state, t),
        ensures
            self.unfunded_bound(state) is Some,
            self.unfunded_bound(state)->0 <= self.score_of(state.problem, t)->0,
            self.unfunded_bound(state)->0 >= -u64::MAX,
    {
        let weight = state.problem.tx_weight(t, DrainWeights::spec_none());
        self.score_is_a_fee(state.problem, t);
        rounding_makes_no_difference(state, t);
        self.greedy_bound_holds(state, t, |ask: Ask| rounded_by(ask.rate, weight), 0, 0);
    }
}

/// What weighs no more than is added fits where that fits.
proof fn in_the_room(weighed: int, more: int, room: int, unit: int)
    requires
        weighed <= more * unit,
        more <= room,
        0 < unit,
    ensures
        weighed <= room * unit,
{
    assert(more * unit <= room * unit) by (nonlinear_arith)
        requires
            more <= room,
            0 < unit,
    ;
}

/// Whether taking candidates in order covers the target at some point where it weighs no more than
/// `t`.
pub open spec fn completed_by(state: SelectionState, t: Seq<bool>) -> bool {
    let p = state.problem;
    let none = DrainWeights::spec_none();
    exists|k: int|
        {
            &&& 1 <= k <= state.unselected().len()
            &&& p.funded((#[trigger] state.taking(k)).selected, Drain::spec_none())
            &&& p.tx_weight(state.taking(k).selected, none) <= p.tx_weight(t, none)
        }
}

/// The part of the last candidate that closes the gap to what is asked, where the whole of it does
/// more than that: it is no more than the whole, and with it no more is paid than is asked with the
/// whole.
proof fn part_is_less_than_the_whole(
    p: ProblemView,
    less: Seq<bool>,
    full: Seq<bool>,
    c: Candidate,
    ask: Ask,
)
    requires
        less.len() == p.n(),
        full.len() == p.n(),
        p.value_of(full) == p.value_of(less) + c.value,
        p.tx_weight(full, DrainWeights::spec_none()) >= p.tx_weight(less, DrainWeights::spec_none())
            + c.weight,
        p.fee_paid(full, 0) > ask.owed(p.tx_weight(full, DrainWeights::spec_none())),
    ensures
        ({
            let none = DrainWeights::spec_none();
            let paid = p.fee_paid(less, 0);
            let deficit = ask.fixed + ask.rate.fee_wu(p.tx_weight(less, none)) - paid;
            let part = lowest_fee::scale_for(deficit, c.value * 4000 - c.weight * ask.rate@, 4000);
            &&& part matches Some(x)
            &&& 0 < x.1
            &&& 0 <= x.0 <= x.1
            &&& 0 <= (x.0 * c.value) / x.1
            &&& deficit > 0 ==> (x.0 * c.value) / x.1 + paid <= ask.owed(p.tx_weight(full, none))
            &&& deficit <= 0 ==> (x.0 * c.value) / x.1 == 0
        }),
{
    let none = DrainWeights::spec_none();
    let (v, w, rate) = (c.value as int, c.weight as int, ask.rate@ as int);
    let (weight, whole) = (p.tx_weight(less, none), p.tx_weight(full, none));
    let paid = p.fee_paid(less, 0);
    let deficit = ask.fixed + ask.rate.fee_wu(weight) - paid;
    let g = 4000 * v - rate * w;
    assert(c.value * 4000 - c.weight * ask.rate@ == g) by (nonlinear_arith)
        requires
            c.value == v,
            c.weight == w,
            ask.rate@ == rate,
            g == 4000 * v - rate * w,
    ;
    if deficit > 0 {
        p.fees_bounded(full, none);
        ask.rate.fee_is_exact(whole, ask.rate.fee(whole));
        ask.rate.fee_wu_at_most_fee(whole);
        assert(whole * rate >= weight * rate + rate * w) by (nonlinear_arith)
            requires
                whole >= weight + w,
                0 <= rate,
        ;
        let d = 4000 * deficit;
        assert(d < g);
        assert(deficit * 4000 == d);
        let n = d * v;
        assert(0 <= n) by (nonlinear_arith)
            requires
                n == d * v,
                0 <= d,
                0 <= v,
        ;
        let q = n / g;
        assert(q * g <= n && 0 <= q) by (nonlinear_arith)
            requires
                q == n / g,
                0 < g,
                0 <= n,
        ;
        // The part costs no more than the whole.
        assert(0 <= rate * w) by (nonlinear_arith)
            requires
                0 <= rate,
                0 <= w,
        ;
        let y = rate * w;
        assert(4000 * n == d * (g + y)) by (nonlinear_arith)
            requires
                n == d * v,
                g + y == 4000 * v,
        ;
        assert(d * (g + y) <= (d + y) * g) by (nonlinear_arith)
            requires
                d <= g,
                0 <= y,
        ;
        assert(4000 * q <= d + y) by (nonlinear_arith)
            requires
                4000 * n <= (d + y) * g,
                q * g <= n,
                0 < g,
        ;
    } else {
        assert(0 * c.value == 0) by (nonlinear_arith);
    }
}

impl LowestFee {
    /// Where candidates that are taken in order cover the target, the bound is no more than what
    /// they owe then, and so no more than the score of any valid selection below that is no
    /// lighter: whatever the target asks, and however fees are rounded.
    #[verifier::spinoff_prover]
    #[verifier::rlimit(40)]
    pub proof fn completion_bounds(self, state: SelectionState, t: Seq<bool>)
        requires
            state.wf(),
            self.accepts(state.problem),
            state.extended_by(t),
            self.score_of(state.problem, t) is Some,
            !lowest_fee::has_ancestors(state.problem),
            !state.problem.funded(state.selected, Drain::spec_none()),
            completed_by(state, t),
        ensures
            self.unfunded_bound(state) is Some,
            self.unfunded_bound(state)->0 <= self.score_of(state.problem, t)->0,
            self.unfunded_bound(state)->0 >= -u64::MAX,
    {
        let p = state.problem;
        let none = DrainWeights::spec_none();
        let u = state.unselected();
        self.score_is_a_fee(p, t);
        state.taking_none();
        let some = choose|k: int|
            {
                &&& 1 <= k <= u.len()
                &&& p.funded((#[trigger] state.taking(k)).selected, Drain::spec_none())
                &&& p.tx_weight(state.taking(k).selected, none) <= p.tx_weight(t, none)
            };
        let found = first_funded_exists(state, some);
        assert(Self::first_funded(state, found));
        let k = choose|k: int| Self::first_funded(state, k);
        assert(Self::first_funded(state, k));
        assert(k <= some) by {
            if some < k {
                assert(!p.funded(state.taking(some).selected, Drain::spec_none()));
            }
        }
        taking_last(state, k);
        let (less, full) = (state.taking(k - 1).selected, state.taking(k).selected);
        let c = p.candidates[u[k - 1] as int];
        let fee = p.target.fee;
        let (weight, whole, heavier) = (
            p.tx_weight(less, none),
            p.tx_weight(full, none),
            p.tx_weight(t, none),
        );
        let paid = p.fee_paid(less, 0);
        assert(whole <= heavier) by {
            state.taking_grows(k, some);
            p.weight_monotone(full, state.taking(some).selected, none);
        }
        p.selection_bounded(less);
        p.selection_bounded(full);
        p.fees_bounded(less, none);
        p.fees_bounded(full, none);
        p.no_ancestors_no_bump(less);
        most_is_owed(p, less);
        most_is_owed(p, full);
        most_is_owed(p, t);
        let owed = p.fee_owed(full, none);
        // Nothing that is asked falls with weight.
        assert(owed <= p.fee_owed(t, none)) by {
            if owed != fee.absolute {
                let ask = choose|ask: Ask| #[trigger] asks(p, ask) && ask.owed(whole) == owed;
                ask.rate.fee_monotone(whole, heavier);
            }
        }
        if p.excess(full, Drain::spec_none()) == 0 {
            p.drain_owes_more(full, self.drain_weights);
            self.long_term_feerate.fee_wu_at_most_fee(0);
            self.long_term_feerate.fee_wu_at_most_fee(self.drain_weights.spend_weight as int);
            assert(self.change_value(p, full) is None);
            assert(self.long_term_fee(p, full) == p.fee_paid(full, 0));
        } else {
            assert(paid <= owed) by {
                assert(!p.funded(less, Drain::spec_none())) by {
                    if k == 1 {
                        assert(less == state.selected);
                    } else {
                        assert(!p.funded(state.taking(k - 1).selected, Drain::spec_none()));
                    }
                }
                if p.fee_owed(less, none) != fee.absolute {
                    let ask = choose|ask: Ask| #[trigger]
                        asks(p, ask) && ask.owed(weight) == p.fee_owed(less, none);
                    ask.rate.fee_monotone(weight, whole);
                }
            }
            let ask = rate_ask(p);
            assert(asks(p, ask));
            part_is_less_than_the_whole(p, less, full, c, ask);
            let for_rate = lowest_fee::scale_for(
                p.rate_fee_wu(less, none) - paid,
                c.value * 4000 - c.weight * fee.rate@,
                4000,
            );
            let for_replacement = match fee.replace {
                Some(replace) => lowest_fee::scale_for(
                    replace.min_fee_wu(weight) - paid,
                    c.value * 4000 - c.weight * replace.incremental_relay_feerate@,
                    4000,
                ),
                None => Some((0int, 1int)),
            };
            assert(0 * c.weight == 0 && 0 * c.value == 0) by (nonlinear_arith);
            if let Some(replace) = fee.replace {
                let ask = replacement_ask(replace);
                assert(asks(p, ask));
                part_is_less_than_the_whole(p, less, full, c, ask);
            }
            let (x, y) = (for_rate->0, for_replacement->0);
            let lacking = fee.absolute - paid;
            let z = lowest_fee::scale_for(lacking, c.value as int, 1)->0;
            let v = c.value as int;
            if lacking > 0 {
                assert(lacking * 1 == lacking) by (nonlinear_arith);
                assert((lacking * v) / v == lacking) by (nonlinear_arith)
                    requires
                        v > 0,
                ;
            }
            assert(0 <= z.0 <= z.1 && 0 < z.1);
            if let Some(max_weight) = p.target.max_weight {
                let room = max_weight - weight;
                part_fits(x, c, room);
                part_fits(y, c, room);
                part_fits(z, c, room);
            }
        }
    }
}

/// A part of a candidate fits where the whole does.
proof fn part_fits(part: (int, int), c: Candidate, room: int)
    requires
        0 <= part.0 <= part.1,
        c.weight <= room,
    ensures
        !LowestFee::too_heavy(part, c, Some(room)),
{
    let (n, d, w) = (part.0, part.1, c.weight as int);
    assert(n * w <= room * d) by (nonlinear_arith)
        requires
            0 <= n <= d,
            0 <= w <= room,
    ;
}

} // verus!
