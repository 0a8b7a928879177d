//! Feerates and the fees that follow from them.
use bdk_coin_select::{
    Candidate, DrainWeights, FeeRate, SelectionProblem, Target, TargetFee, TargetOutputs,
};

fn sat_per_vb(rate: u64) -> FeeRate {
    FeeRate::from_sat_per_kvb(rate * 1_000)
}

#[test]
fn whole_unit_conversions() {
    assert_eq!(sat_per_vb(1), FeeRate::default_min_relay_fee());
    assert_eq!(FeeRate::from_vb(10, 10), FeeRate::default_min_relay_fee());
    assert_eq!(FeeRate::from_wu(10, 40), FeeRate::default_min_relay_fee());
    assert_eq!(FeeRate::default_min_relay_fee().sat_per_kvb(), 1000);
    assert_eq!(FeeRate::default_rbf_incremental_relay().sat_per_kvb(), 1000);
    assert_eq!(FeeRate::zero().sat_per_kvb(), 0);
    // 7 sats for 3 vbytes is 2333.3 sats per 1000 vbytes.
    assert_eq!(FeeRate::from_vb(7, 3).sat_per_kvb(), 2_333);
    assert_eq!(FeeRate::from_wu(7, 12).sat_per_kvb(), 2_333);
}

/// `implied_fee` charges whole (rounded-up) vbytes; `implied_fee_wu` charges weight directly.
#[test]
fn implied_fees_round_up() {
    let ten_sat_vb = sat_per_vb(10);
    // 9 wu -> 3 vbytes -> 30 sats
    assert_eq!(ten_sat_vb.implied_fee(9), 30);
    assert_eq!(ten_sat_vb.implied_fee(12), 30);
    assert_eq!(ten_sat_vb.implied_fee(13), 40);
    // applied to weight directly: 9 wu * 2.5 sat/wu = 22.5 -> 23
    assert_eq!(ten_sat_vb.implied_fee_wu(9), 23);
    assert_eq!(ten_sat_vb.implied_fee_wu(12), 30);

    assert_eq!(FeeRate::zero().implied_fee(1000), 0);
    assert_eq!(FeeRate::zero().implied_fee_wu(1000), 0);
}

/// The fee is exactly `ceil(weight * feerate)` at *any* magnitude.
#[test]
fn implied_fees_are_exact() {
    for sat_vb in 1..600_u64 {
        let feerate = sat_per_vb(sat_vb);
        for weight in (200..400_000_u64).step_by(311) {
            assert_eq!(
                feerate.implied_fee(weight),
                ((weight + 3) / 4) * sat_vb,
                "implied_fee({}) at {} sat/vb",
                weight,
                sat_vb
            );
            assert_eq!(
                feerate.implied_fee_wu(weight),
                (weight * sat_vb + 3) / 4,
                "implied_fee_wu({}) at {} sat/vb",
                weight,
                sat_vb
            );
        }
    }
}

/// A feerate large enough to overflow must saturate rather than wrap to a tiny fee (which would
/// read as "this selection is funded").
#[test]
fn implied_fee_saturates_instead_of_wrapping() {
    let absurd = FeeRate::from_sat_per_kvb(u64::MAX);
    assert_eq!(absurd.implied_fee(400_000), u64::MAX);
    assert_eq!(absurd.implied_fee_wu(400_000), u64::MAX);
}

/// `is_funded` must flip exactly at the satoshi that covers the target feerate.
#[test]
fn is_funded_flips_exactly_at_the_required_fee() {
    let outputs = TargetOutputs {
        value_sum: 99_000,
        weight_sum: 400,
        n_outputs: 2,
    };

    for weight in (200..500_000_u64).step_by(4_093) {
        for sat_vb in [1u64, 3, 10, 50, 135, 337, 599] {
            let target = Target {
                fee: TargetFee::from_feerate(sat_per_vb(sat_vb)),
                outputs,
                max_weight: None,
            };
            let candidate = |value: u64| Candidate {
                value,
                weight,
                segwit_count: 1,
                legacy_count: 0,
            };

            // The tx weight doesn't depend on the candidate's value, so compute the required fee
            // once, independently, in exact integer arithmetic.
            let probe = SelectionProblem::new_no_ancestors(target, vec![candidate(0)]);
            let mut cs = probe.selector();
            cs.select(0);
            let tx_weight = cs.weight(DrainWeights::none());
            let required = (((tx_weight as u128 + 3) / 4) * sat_vb as u128) as u64;
            let exact = outputs.value_sum + required;

            for (value, want_funded) in [(exact - 1, false), (exact, true), (exact + 1, true)] {
                let problem = SelectionProblem::new_no_ancestors(target, vec![candidate(value)]);
                let mut cs = problem.selector();
                cs.select(0);
                assert_eq!(
                    cs.is_funded(),
                    want_funded,
                    "weight={} sat/vb={} value={} (exact boundary {}, required fee {})",
                    weight,
                    sat_vb,
                    value,
                    exact,
                    required
                );
            }
        }
    }
}

#[test]
fn sub_saturates_at_zero() {
    assert_eq!(sat_per_vb(1) - sat_per_vb(5), FeeRate::zero());
    assert_eq!(sat_per_vb(5) - sat_per_vb(1), sat_per_vb(4));
}

#[test]
fn sums_of_feerates_saturate_at_the_top() {
    assert_eq!(sat_per_vb(5) + sat_per_vb(1), sat_per_vb(6));
    let most = FeeRate::from_sat_per_kvb(u64::MAX);
    assert_eq!(most + sat_per_vb(1), most);
}

/// Charging two weights together never costs more than charging each, and at most a satoshi less.
#[test]
fn fees_of_sums() {
    for rate in [1u64, 999, 1_000, 1_001, 3_700, 123_456] {
        let feerate = FeeRate::from_sat_per_kvb(rate);
        for a in [0u64, 1, 2, 3, 4, 37, 272, 4_001] {
            for b in [0u64, 1, 2, 3, 5, 164, 9_999] {
                let together = feerate.implied_fee_wu(a + b);
                let apart = feerate.implied_fee_wu(a) + feerate.implied_fee_wu(b);
                assert!(together <= apart && apart <= together + 1);
                assert!(
                    feerate.implied_fee(a + b) <= feerate.implied_fee(a) + feerate.implied_fee(b)
                );
                assert!(feerate.implied_fee_wu(a) <= feerate.implied_fee(a));
            }
        }
    }
}
