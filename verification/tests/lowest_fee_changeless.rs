//! The lowest fee without change.
use bdk_coin_select::metrics::{Changeless, LowestFee, LowestFeeChangeless};
use bdk_coin_select::{
    BnbMetric, Candidate, Drain, DrainWeights, FeeRate, SelectionProblem, Target, TargetFee,
    TargetOutputs,
};

fn sat_per_vb(rate: u64) -> FeeRate {
    FeeRate::from_sat_per_kvb(rate * 1_000)
}

#[test]
fn funded_changeful_branch_is_bounded_by_its_no_change_fee() {
    let target = Target {
        outputs: TargetOutputs {
            n_outputs: 1,
            value_sum: 100_000,
            weight_sum: 100,
        },
        fee: TargetFee::from_feerate(sat_per_vb(1)),
        max_weight: None,
    };
    let problem = SelectionProblem::new_no_ancestors(
        target,
        vec![Candidate {
            value: 110_000,
            weight: 200,
            segwit_count: 1,
            legacy_count: 0,
        }],
    );
    let mut selector = problem.selector();
    selector.select(0);
    let mut metric = LowestFeeChangeless {
        long_term_feerate: FeeRate::zero(),
        dust_relay_feerate: FeeRate::zero(),
        drain_weights: DrainWeights {
            output_weight: 100,
            spend_weight: 100,
            n_outputs: 1,
        },
    };
    let view = selector.compute_view();

    assert!(metric.score(&view).is_none(), "this selection wants change");
    assert_eq!(metric.bound(&view), Some(10_000));
}

#[test]
fn mixed_serialization_overhead_does_not_prune_exact_solution() {
    let target = Target {
        outputs: TargetOutputs {
            n_outputs: 0,
            value_sum: 1_000,
            weight_sum: 0,
        },
        fee: TargetFee::from_feerate(sat_per_vb(4)),
        max_weight: None,
    };
    let candidates = vec![
        Candidate {
            value: 1_201,
            weight: 158,
            segwit_count: 1,
            legacy_count: 0,
        },
        Candidate {
            value: 167,
            weight: 164,
            segwit_count: 0,
            legacy_count: 3,
        },
    ];
    let problem = SelectionProblem::new_no_ancestors(target, candidates);
    let mut selector = problem.selector();
    let metric = LowestFeeChangeless {
        long_term_feerate: FeeRate::zero(),
        dust_relay_feerate: FeeRate::zero(),
        drain_weights: DrainWeights::none(),
    };

    let mut expected = problem.selector();
    expected.select_all();
    assert_eq!(expected.excess(Drain::none()), 0);
    assert!(metric.clone().score(&expected.compute_view()).is_some());

    selector.run_bnb(metric, 100).expect("exact solution");
    assert_eq!(selector.selected_indices().iter(), [0, 1]);
    assert_eq!(selector.excess(Drain::none()), 0);
}

/// Both ways of asking for the lowest fee without change agree on what is valid and what it scores.
#[test]
fn constraining_the_metric_gives_the_same_scores() {
    let candidates: Vec<Candidate> = [60_000u64, 45_000, 31_000, 20_300, 12_000]
        .iter()
        .map(|&value| Candidate::new_tr_keyspend(value))
        .collect();
    let target = Target {
        outputs: TargetOutputs {
            n_outputs: 1,
            value_sum: 79_700,
            weight_sum: 172,
        },
        fee: TargetFee::from_feerate(sat_per_vb(2)),
        max_weight: None,
    };
    let problem = SelectionProblem::new_no_ancestors(target, candidates);
    let lowest_fee = LowestFee {
        long_term_feerate: sat_per_vb(5),
        dust_relay_feerate: sat_per_vb(3),
        drain_weights: DrainWeights::tr_keyspend(),
    };
    let mut direct = LowestFeeChangeless::from(lowest_fee);
    let mut constrained = Changeless(lowest_fee);
    let mut n_valid = 0;
    for mask in 0..1_usize << problem.len() {
        let mut cs = problem.selector();
        for i in 0..problem.len() {
            if mask & (1 << i) != 0 {
                cs.select(i);
            }
        }
        let view = cs.compute_view();
        let score = direct.score(&view);
        assert_eq!(score, constrained.score(&view));
        assert!(direct.drain(&view).is_none() && constrained.drain(&view).is_none());
        if score.is_some() {
            n_valid += 1;
            assert_eq!(score, Some(cs.fee(0) as i128));
        }
    }
    assert!(n_valid > 0);

    let mut one = problem.selector();
    let mut other = problem.selector();
    let (score, drain) = one.run_bnb(direct, 10_000).unwrap();
    assert_eq!((score, drain), other.run_bnb(constrained, 10_000).unwrap());
    assert!(drain.is_none());
}

/// Once a selection has overshot the window without change, everything below it has too.
#[test]
fn overshooting_is_final() {
    let candidates: Vec<Candidate> = [200_000u64, 4_000, 3_000, 2_000]
        .iter()
        .map(|&value| Candidate::new_tr_keyspend(value))
        .collect();
    let target = Target {
        outputs: TargetOutputs {
            n_outputs: 1,
            value_sum: 100_000,
            weight_sum: 172,
        },
        fee: TargetFee::from_feerate(sat_per_vb(2)),
        max_weight: None,
    };
    let problem = SelectionProblem::new_no_ancestors(target, candidates);
    let mut metric = LowestFeeChangeless {
        long_term_feerate: sat_per_vb(1),
        dust_relay_feerate: sat_per_vb(3),
        drain_weights: DrainWeights::tr_keyspend(),
    };
    let mut cs = problem.selector();
    cs.select(0);
    assert_eq!(metric.bound(&cs.compute_view()), None);
    for mask in 0..8_usize {
        let mut below = cs.clone();
        for i in 0..3 {
            if mask & (1 << i) != 0 {
                below.select(i + 1);
            }
        }
        assert_eq!(metric.score(&below.compute_view()), None);
    }
}
