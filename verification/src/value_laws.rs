//! What the operations on feerates, weights, drains, targets and candidates return.
use crate::candidate::Candidate;
use crate::drain::{ChangePolicy, Drain, DrainWeights};
use crate::fee_laws;
use crate::feerate::FeeRate;
use crate::target::{Replace, TargetFee, TargetOutputs};
use crate::weights;
use vstd::prelude::*;

verus! {

/// A feerate that is made from a fee and the size that it pays for is the highest at which the fee
/// suffices for that size, in whole satoshis per thousand virtual bytes.
pub proof fn feerates_are_what_was_paid(
    fee: u64,
    size: usize,
    per_vbyte: FeeRate,
    per_weight: FeeRate,
)
    requires
        size > 0,
        fee * 4000 <= u64::MAX * size,
        call_ensures(FeeRate::from_vb, (fee, size), per_vbyte),
        call_ensures(FeeRate::from_wu, (fee, size), per_weight),
    ensures
        per_vbyte@ * size <= fee * 1000 < (per_vbyte@ + 1) * size,
        per_weight@ * size <= fee * 4000 < (per_weight@ + 1) * size,
{
    let (f, n) = (fee as int, size as int);
    let (q, p) = ((f * 1000) / n, (f * 4000) / n);
    assert(q * n <= f * 1000 < (q + 1) * n && p * n <= f * 4000 < (p + 1) * n && 0 <= q <= p)
        by (nonlinear_arith)
        requires
            0 < n,
            0 <= f,
            q == (f * 1000) / n,
            p == (f * 4000) / n,
    ;
    assert(p <= u64::MAX) by (nonlinear_arith)
        requires
            p * n <= f * 4000,
            f * 4000 <= u64::MAX * n,
            0 < n,
    ;
}

/// A feerate can be read back, and the feerates that are known by name are what nodes relay by
/// default.
pub proof fn feerates_read_back(
    sat_per_kvb: u64,
    rate: FeeRate,
    read: u64,
    zero: FeeRate,
    relay: FeeRate,
    incremental: FeeRate,
)
    requires
        call_ensures(FeeRate::from_sat_per_kvb, (sat_per_kvb,), rate),
        call_ensures(FeeRate::sat_per_kvb, (&rate,), read),
        call_ensures(FeeRate::zero, (), zero),
        call_ensures(FeeRate::default_min_relay_fee, (), relay),
        call_ensures(FeeRate::default_rbf_incremental_relay, (), incremental),
    ensures
        rate@ == sat_per_kvb,
        read == sat_per_kvb,
        zero@ == 0,
        relay@ == 1000,
        incremental@ == 1000,
{
}

/// The fee on a weight is the least that pays the feerate for its virtual bytes, or for its weight
/// units, as long as that can be represented.
pub proof fn implied_fees_are_least(
    rate: FeeRate,
    weight: u64,
    vbytes: int,
    paid: int,
    fee: u64,
    fee_wu: u64,
)
    requires
        call_ensures(FeeRate::implied_fee, (&rate, weight), fee),
        call_ensures(FeeRate::implied_fee_wu, (&rate, weight), fee_wu),
        fee_laws::fills(vbytes, weight as int),
        vbytes * rate@ <= 1000 * u64::MAX,
    ensures
        paid >= fee <==> paid * 1000 >= vbytes * rate@,
        paid >= fee_wu <==> paid * 4000 >= weight * rate@,
{
    let w = weight as int;
    rate.fee_is_least(w, vbytes, paid);
    rate.fee_is_least(w, vbytes, u64::MAX as int);
    rate.fee_wu_at_most_fee(w);
    fee_laws::saturated_keeps(rate.fee(w));
    fee_laws::saturated_keeps(rate.fee_wu(w));
}

/// Feerates that are too high to be paid ask for the highest fee that can be represented.
pub proof fn implied_fees_saturate(
    rate: FeeRate,
    weight: u64,
    vbytes: int,
    fee: u64,
    fee_wu: u64,
)
    requires
        call_ensures(FeeRate::implied_fee, (&rate, weight), fee),
        call_ensures(FeeRate::implied_fee_wu, (&rate, weight), fee_wu),
        fee_laws::fills(vbytes, weight as int),
    ensures
        vbytes * rate@ > 1000 * u64::MAX ==> fee == u64::MAX,
        weight * rate@ > 4000 * u64::MAX ==> fee_wu == u64::MAX,
{
    let w = weight as int;
    rate.fee_is_least(w, vbytes, u64::MAX as int);
    rate.fee_wu_at_most_fee(w);
    fee_laws::saturated_keeps(rate.fee(w));
    fee_laws::saturated_keeps(rate.fee_wu(w));
}

/// A count takes one byte up to 0xfc, and otherwise one byte and the least of two, four and eight
/// that hold it.
pub proof fn varint_sizes_are_shortest(v: usize, size: u64)
    requires
        call_ensures(weights::varint_size, (v,), size),
    ensures
        v <= 0xfc ==> size == 1,
        0xfc < v < 0x1_0000 ==> size == 3,
        0x1_0000 <= v < 0x1_0000_0000 ==> size == 5,
        0x1_0000_0000 <= v ==> size == 9,
{
    fee_laws::varint_is_shortest(v as int);
}

/// A taproot change output weighs its value and its script, and a key spend of it an input with one
/// signature.
pub proof fn taproot_change_weighs(drain_weights: DrainWeights)
    requires
        call_ensures(DrainWeights::tr_keyspend, (), drain_weights),
    ensures
        drain_weights.output_weight == 4 * (8 + 1 + 34),
        drain_weights.spend_weight == 4 * 41 + 66,
        drain_weights.n_outputs == 1,
{
    fee_laws::parts_weigh_their_bytes();
}

/// No drain has no weight and no value, and is told from all others.
pub proof fn no_drain_is_all_zeros(drain: Drain, none: Drain, is_none: bool, is_some: bool)
    requires
        call_ensures(Drain::none, (), none),
        call_ensures(Drain::is_none, (&drain,), is_none),
        call_ensures(Drain::is_some, (&drain,), is_some),
    ensures
        none.value == 0 && none.weights.output_weight == 0 && none.weights.spend_weight == 0
            && none.weights.n_outputs == 0,
        is_none <==> drain == none,
        is_some <==> !is_none,
{
}

/// Change adds its output and what the bytes that count outputs grow by.
pub proof fn change_adds_its_output(drain_weights: DrainWeights, n_outputs: usize, weight: u64)
    requires
        call_ensures(DrainWeights::added_output_weight, (&drain_weights, n_outputs), weight),
    ensures
        weight == drain_weights.output_weight + 4 * (weights::varint_bytes(
            n_outputs + drain_weights.n_outputs,
        ) - weights::varint_bytes(n_outputs as int)),
{
}

/// Change costs the fee on what it adds now and the fee on spending it later, each at its own
/// feerate, whichever is higher: rounded down once over all, or up for each.
pub proof fn waste_is_both_costs(
    drain_weights: DrainWeights,
    feerate: FeeRate,
    long_term_feerate: FeeRate,
    n_outputs: usize,
    added: u64,
    spend: u64,
    floor: u64,
    ceil: u64,
)
    requires
        call_ensures(DrainWeights::added_output_weight, (&drain_weights, n_outputs), added),
        call_ensures(DrainWeights::spend_fee, (&drain_weights, long_term_feerate), spend),
        call_ensures(
            DrainWeights::waste_floor,
            (&drain_weights, feerate, long_term_feerate, n_outputs),
            floor,
        ),
        call_ensures(
            DrainWeights::waste_ceil,
            (&drain_weights, feerate, long_term_feerate, n_outputs),
            ceil,
        ),
        added * feerate@ + drain_weights.spend_weight * long_term_feerate@ <= 4000 * u64::MAX,
    ensures
        ({
            let exact = added * feerate@ + drain_weights.spend_weight * long_term_feerate@;
            &&& 4000 * floor <= exact < 4000 * (floor + 1)
            &&& exact <= 4000 * ceil < exact + 8000
            &&& 4000 * (ceil - spend) >= added * feerate@ > 4000 * (ceil - spend - 1)
            &&& 4000 * spend >= drain_weights.spend_weight * long_term_feerate@ > 4000 * (spend - 1)
        }),
{
    let (a, s) = (added as int, drain_weights.spend_weight as int);
    assert(0 <= a * feerate@ && 0 <= s * long_term_feerate@) by (nonlinear_arith)
        requires
            0 <= a,
            0 <= s,
    ;
    let (v, w) = (FeeRate::weight_fills_vbytes(a), FeeRate::weight_fills_vbytes(s));
    let (x, y) = (feerate.fee_wu(a), long_term_feerate.fee_wu(s));
    feerate.fee_wu_at_most_fee(a);
    long_term_feerate.fee_wu_at_most_fee(s);
    feerate.fee_is_least(a, v, x);
    feerate.fee_is_least(a, v, x - 1);
    feerate.fee_is_least(a, v, u64::MAX as int);
    long_term_feerate.fee_is_least(s, w, y);
    long_term_feerate.fee_is_least(s, w, y - 1);
    long_term_feerate.fee_is_least(s, w, u64::MAX as int);
    fee_laws::saturated_keeps(x);
    fee_laws::saturated_keeps(y);
}

/// Change is dust if it is worth less than adding and spending it costs at the dust feerate.
pub proof fn dust_costs_more_than_it_is_worth(
    drain_weights: DrainWeights,
    dust_feerate: FeeRate,
    value: int,
    threshold: u64,
)
    requires
        call_ensures(DrainWeights::dust_threshold, (&drain_weights, dust_feerate), threshold),
        (drain_weights.output_weight + drain_weights.spend_weight) * dust_feerate@ <= 4000 * u64::MAX,
    ensures
        value >= threshold <==> value * 4000 >= (drain_weights.output_weight
            + drain_weights.spend_weight) * dust_feerate@,
{
    let both = drain_weights.output_weight + drain_weights.spend_weight;
    let vbytes = FeeRate::weight_fills_vbytes(both);
    dust_feerate.fee_is_least(both, vbytes, value);
    dust_feerate.fee_is_least(both, vbytes, u64::MAX as int);
    dust_feerate.fee_wu_at_most_fee(both);
    fee_laws::saturated_keeps(dust_feerate.fee_wu(both));
}

/// A policy asks change to be worth its least value, and one that minds waste also what change
/// costs now and later, whichever is more.
pub proof fn policies_ask_for_value_and_waste(
    drain_weights: DrainWeights,
    least: u64,
    feerate: FeeRate,
    long_term_feerate: FeeRate,
    plain: ChangePolicy,
    minding: ChangePolicy,
)
    requires
        call_ensures(ChangePolicy::min_value, (drain_weights, least), plain),
        call_ensures(
            ChangePolicy::min_value_and_waste,
            (drain_weights, least, feerate, long_term_feerate),
            minding,
        ),
        feerate.fee_wu(drain_weights.added_weight(0)) + long_term_feerate.fee_wu(
            drain_weights.spend_weight as int,
        ) <= u64::MAX,
    ensures
        plain.min_value == least && plain.drain_weights == drain_weights,
        minding.drain_weights == drain_weights,
        minding.min_value >= least,
        ({
            let added = drain_weights.output_weight + 4 * (weights::varint_bytes(
                drain_weights.n_outputs as int,
            ) - weights::varint_bytes(0));
            let cost = feerate.fee_wu(added) + long_term_feerate.fee_wu(
                drain_weights.spend_weight as int,
            );
            &&& minding.min_value >= cost
            &&& minding.min_value == least || minding.min_value == cost
        }),
{
    let added = drain_weights.added_weight(0);
    assert(added >= 0);
    feerate.fee_wu_at_most_fee(added);
    long_term_feerate.fee_wu_at_most_fee(drain_weights.spend_weight as int);
    fee_laws::saturated_keeps(feerate.fee_wu(added));
    fee_laws::saturated_keeps(long_term_feerate.fee_wu(drain_weights.spend_weight as int));
}

/// Outputs are funded by what they weigh and are worth together.
pub proof fn outputs_are_funded_together(
    outputs: &[(u64, u64)],
    more: &[(u64, u64)],
    last: (u64, u64),
    less: TargetOutputs,
    all: TargetOutputs,
    drain_weights: DrainWeights,
    weight: u64,
)
    requires
        call_ensures(TargetOutputs::fund_outputs, (outputs,), less),
        call_ensures(TargetOutputs::fund_outputs, (more,), all),
        more@ == outputs@.push(last),
        call_ensures(TargetOutputs::output_weight_with_drain, (&all, drain_weights), weight),
    ensures
        all.n_outputs == more@.len(),
        all.weight_sum == less.weight_sum + last.0,
        all.value_sum == less.value_sum + last.1,
        outputs@.len() == 0 ==> less.weight_sum == 0 && less.value_sum == 0,
        weight == all.weight_sum + drain_weights.output_weight + 4 * weights::varint_bytes(
            all.n_outputs + drain_weights.n_outputs,
        ),
{
    let one = seq![last];
    assert(more@ =~= outputs@ + one);
    TargetOutputs::outputs_add_up(outputs@, one);
    TargetOutputs::outputs_add_up(one, Seq::empty());
}

/// Targets that are known by name ask for nothing, or for a feerate only.
pub proof fn targets_ask_for_a_feerate_only(
    rate: FeeRate,
    zero: TargetFee,
    target: TargetFee,
    fee: u64,
    replace: Replace,
)
    requires
        call_ensures(TargetFee::zero, (), zero),
        call_ensures(TargetFee::from_feerate, (rate,), target),
        call_ensures(Replace::new, (fee,), replace),
    ensures
        zero.rate@ == 0 && zero.absolute == 0 && zero.replace is None,
        target.rate == rate && target.absolute == 0 && target.replace is None,
        replace.fee == fee && replace.incremental_relay_feerate@ == 1000,
{
}

/// A replacement has to pay what it replaces, and its own feerate on its own weight on top.
pub proof fn replacements_pay_on_top(
    replace: Replace,
    weight: u64,
    vbytes: int,
    paid: int,
    fee: u64,
    fee_wu: u64,
)
    requires
        call_ensures(Replace::min_fee_to_do_replacement, (&replace, weight), fee),
        call_ensures(Replace::min_fee_to_do_replacement_wu, (&replace, weight), fee_wu),
        fee_laws::fills(vbytes, weight as int),
    ensures
        paid >= fee <==> (paid - replace.fee) * 1000 >= vbytes * replace.incremental_relay_feerate@,
        paid >= fee_wu <==> (paid - replace.fee) * 4000 >= weight
            * replace.incremental_relay_feerate@,
{
    replace.replacing_pays_twice(weight as int, vbytes, paid);
}

/// Single inputs weigh an outpoint, a sequence, a script length and what satisfies them.
pub proof fn inputs_weigh_what_satisfies_them(
    value: u64,
    satisfaction: u64,
    taproot: Candidate,
    segwit: Candidate,
    legacy: Candidate,
)
    requires
        call_ensures(Candidate::new_tr_keyspend, (value,), taproot),
        call_ensures(Candidate::new_segwit, (value, satisfaction), segwit),
        call_ensures(Candidate::new_legacy, (value, satisfaction), legacy),
    ensures
        taproot == (Candidate { value, weight: 230, segwit_count: 1, legacy_count: 0 }),
        segwit.value == value && segwit.weight == 164 + satisfaction,
        segwit.segwit_count == 1 && segwit.legacy_count == 0,
        legacy.value == value && legacy.weight == 164 + satisfaction,
        legacy.segwit_count == 0 && legacy.legacy_count == 1,
{
    fee_laws::parts_weigh_their_bytes();
}

/// A candidate is worth selecting if it is worth more than the feerate asks for its weight.
pub proof fn effective_candidates_pay_for_themselves(
    candidate: Candidate,
    feerate: FeeRate,
    other: Candidate,
    effective: bool,
    before: bool,
)
    requires
        call_ensures(Candidate::is_effective, (&candidate, feerate), effective),
        call_ensures(Candidate::is_ranked_before, (&candidate, &other), before),
    ensures
        effective <==> candidate.value * 4000 > candidate.weight * feerate@,
        candidate.weight > 0 && other.weight > 0 ==> (before <==> candidate.value * other.weight
            > other.value * candidate.weight || (candidate.value * other.weight == other.value
            * candidate.weight && candidate.value > other.value)),
        candidate.weight == 0 ==> (before <==> other.weight > 0 || candidate.value > other.value),
        candidate.weight > 0 && other.weight == 0 ==> !before,
{
    Candidate::ranked_by_value_per_weight(candidate, other);
}

} // verus!
