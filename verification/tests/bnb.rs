//! Branch and bound.
use bdk_coin_select::bnb::MetricModel;
use bdk_coin_select::metrics::LowestFee;
use bdk_coin_select::{
    AncestorToBump, BnbMetric, Candidate, CoinSelector, Drain, DrainWeights, FeeRate, Input,
    NoBnbSolution, Score, SelectionProblem, SelectionView, Target, TargetFee, TargetOutputs,
};
use proptest::prelude::{Rng, RngCore};
use proptest::test_runner::{RngAlgorithm, TestRng};

/// The least excess, and among equals the least weight.
struct MinExcessThenWeight;

/// Assumes that a transaction weighs less than 1MB.
const EXCESS_RATIO: i128 = 1_000_000;

impl BnbMetric for MinExcessThenWeight {
    fn model(&self) -> MetricModel {
        unreachable!("only proofs speak of the model")
    }

    fn score(&mut self, cs: &SelectionView<'_>) -> Option<Score> {
        let excess = cs.excess(Drain::none());
        if excess < 0 {
            None
        } else {
            Some(excess as i128 * EXCESS_RATIO + cs.input_weight() as i128)
        }
    }

    fn bound(&mut self, cs: &SelectionView<'_>) -> Option<Score> {
        let mut cs = cs.selector().clone();
        cs.select_until_target_met().ok()?;
        Some(cs.input_weight() as i128)
    }

    fn drain(&mut self, _cs: &SelectionView<'_>) -> Drain {
        Drain::none()
    }
}

fn test_wv(mut rng: impl RngCore) -> impl Iterator<Item = Candidate> {
    core::iter::repeat_with(move || {
        let value = rng.random_range(0..1_000);
        let candidate = Candidate {
            value,
            weight: 100,
            segwit_count: rng.random_range(1..2),
            legacy_count: 0,
        };
        // One more draw keeps the stream of random numbers as it is.
        let _ = rng.random_bool(0.5);
        candidate
    })
}

#[test]
/// Detect regressions/improvements by making sure it always finds the solution in the same
/// number of iterations.
fn bnb_finds_an_exact_solution_in_n_iter() {
    let solution_len = 6;
    let num_additional_canidates = 12;

    let mut rng = TestRng::deterministic_rng(RngAlgorithm::ChaCha);
    let mut wv = test_wv(&mut rng);

    let solution: Vec<Candidate> = (0..solution_len).map(|_| wv.next().unwrap()).collect();
    let target_value = solution.iter().map(|c| c.value).sum();

    let mut candidates = solution.clone();
    candidates.extend(wv.take(num_additional_canidates));
    candidates.sort_unstable_by_key(|wv| core::cmp::Reverse(wv.value));

    let target = Target {
        outputs: TargetOutputs {
            value_sum: target_value,
            weight_sum: 0,
            n_outputs: 1,
        },
        // we're trying to find an exact selection value so set fees to 0
        fee: TargetFee::zero(),
        max_weight: None,
    };

    let solution_weight = {
        let problem = SelectionProblem::new_no_ancestors(target, solution.clone());
        let mut cs = CoinSelector::new(&problem);
        cs.select_all();
        cs.input_weight()
    };

    let problem_2 = SelectionProblem::new_no_ancestors(target, candidates);
    let cs = CoinSelector::new(&problem_2);
    let mut solutions = cs.bnb_solutions(MinExcessThenWeight);

    let mut rounds = 0;
    let mut last = None;
    while let Some(round) = solutions.next() {
        rounds += 1;
        if round.is_some() {
            last = round;
        }
    }
    let (best, score) = last.expect("it found a solution");

    assert_eq!(rounds, 62452);
    assert_eq!(best.input_weight(), solution_weight);
    assert_eq!(best.selected_value(), target_value, "score={:?}", score);
}

#[test]
fn bnb_finds_solution_if_possible_in_n_iter() {
    let num_inputs = 18;
    let target_value = 8_314;
    let mut rng = TestRng::deterministic_rng(RngAlgorithm::ChaCha);
    let wv = test_wv(&mut rng);
    let candidates = wv.take(num_inputs).collect::<Vec<_>>();

    let target = Target {
        outputs: TargetOutputs {
            value_sum: target_value,
            weight_sum: 0,
            n_outputs: 1,
        },
        fee: TargetFee::default(),
        max_weight: None,
    };

    let problem_3 = SelectionProblem::new_no_ancestors(target, candidates);
    let cs = CoinSelector::new(&problem_3);
    let mut solutions = cs.bnb_solutions(MinExcessThenWeight);

    let mut rounds = 0;
    let mut last = None;
    while let Some(round) = solutions.next() {
        rounds += 1;
        if round.is_some() {
            last = round;
        }
    }
    let (sol, _score) = last.expect("found a solution");

    assert_eq!(rounds, 94);
    let excess = sol.excess(Drain::none());
    assert_eq!(excess, 0);
}

fn sat_per_vb(rate: u64) -> FeeRate {
    FeeRate::from_sat_per_kvb(rate * 1_000)
}

fn metric() -> LowestFee {
    LowestFee {
        long_term_feerate: sat_per_vb(5),
        dust_relay_feerate: sat_per_vb(3),
        drain_weights: DrainWeights::tr_keyspend(),
    }
}

fn xorshift(state: &mut u64) -> u64 {
    *state ^= *state << 13;
    *state ^= *state >> 7;
    *state ^= *state << 17;
    *state
}

#[test]
fn exclusion_cursor_skips_preselected_equivalent_candidate() {
    let candidates = vec![
        Candidate::new_legacy(500, 100),
        Candidate::new_legacy(500, 100),
        Candidate::new_legacy(400, 100),
    ];
    let target = Target {
        outputs: TargetOutputs {
            value_sum: 900,
            weight_sum: 0,
            n_outputs: 1,
        },
        fee: TargetFee::zero(),
        max_weight: None,
    };
    let problem = SelectionProblem::new_no_ancestors(target, candidates);
    let mut selector = problem.selector();
    selector.select(1);

    selector
        .run_bnb(MinExcessThenWeight, 1_000)
        .expect("must find a solution");

    assert_eq!(selector.selected_indices().iter(), vec![1, 2]);
    for (index, _) in selector.selected() {
        assert!(!selector.banned().contains(index));
    }
}

/// The best score over all selections that extend `cs`.
fn best_score(cs: &CoinSelector<'_>, metric: &mut LowestFee) -> Option<Score> {
    let open = cs.unselected_indices();
    let mut best: Option<Score> = None;
    for mask in 0..1_usize << open.len() {
        let mut below = cs.clone();
        for (k, &index) in open.iter().enumerate() {
            if mask & (1 << k) != 0 {
                below.select(index);
            }
        }
        if let Some(score) = metric.score(&below.compute_view()) {
            if best.map_or(true, |best| score < best) {
                best = Some(score);
            }
        }
    }
    best
}

/// Legacy inputs that take up whole vbytes: the bound is exact, and so is the search.
#[test]
fn the_best_of_plain_inputs_is_found() {
    let mut state = 0x1234_5678_9abc_def1;
    for _ in 0..60 {
        let n = 1 + (xorshift(&mut state) % 7) as usize;
        let candidates: Vec<Candidate> = (0..n)
            .map(|_| {
                let value = 1_000 + xorshift(&mut state) % 60_000;
                Candidate::new_legacy(value, 4 * (20 + xorshift(&mut state) % 100))
            })
            .collect();
        let target = Target {
            outputs: TargetOutputs {
                value_sum: 5_000 + xorshift(&mut state) % 100_000,
                weight_sum: 200,
                n_outputs: 1,
            },
            fee: TargetFee::from_feerate(sat_per_vb(1 + xorshift(&mut state) % 20)),
            max_weight: None,
        };
        let problem = SelectionProblem::new_no_ancestors(target, candidates);
        let mut root = problem.selector();
        root.sort_candidates_by_descending_value_pwu();
        let expected = best_score(&root, &mut metric());
        let mut cs = problem.selector();
        match cs.run_bnb(metric(), 1_000_000) {
            Ok((score, drain)) => {
                assert_eq!(Some(score), expected);
                assert!(cs.is_funded_with_drain(drain));
                assert_eq!(drain, metric().drain(&cs.compute_view()));
            }
            Err(error) => {
                assert_eq!(expected, None);
                assert_eq!(error, NoBnbSolution::InsufficientFunds);
            }
        }
    }
}

/// With ancestors and a feerate alone the bound holds everywhere, so the best selection is found.
#[test]
fn the_best_with_ancestors_is_found() {
    let mut state = 0xfeed_beef_1234_5671;
    for _ in 0..60 {
        let n_ancestors = 1 + (xorshift(&mut state) % 4) as usize;
        let ancestors: Vec<AncestorToBump<usize>> = (0..n_ancestors)
            .map(|i| {
                let parent = (xorshift(&mut state) % (i as u64 + 1)) as usize;
                AncestorToBump {
                    txid: i,
                    weight: 200 + xorshift(&mut state) % 4_000,
                    fee: xorshift(&mut state) % 6_000,
                    parents: if parent == i { vec![] } else { vec![parent] },
                }
            })
            .collect();
        let n = 1 + (xorshift(&mut state) % 6) as usize;
        let inputs: Vec<Vec<Input<usize>>> = (0..n)
            .map(|_| {
                vec![Input {
                    value: 1_000 + xorshift(&mut state) % 200_000,
                    weight: 200 + xorshift(&mut state) % 800,
                    is_segwit: xorshift(&mut state) % 4 != 0,
                    residing_txid: (xorshift(&mut state) % (n_ancestors as u64 + 1)) as usize,
                }]
            })
            .collect();
        let target = Target {
            outputs: TargetOutputs {
                value_sum: 10_000 + xorshift(&mut state) % 300_000,
                weight_sum: 100,
                n_outputs: 1,
            },
            fee: TargetFee::from_feerate(FeeRate::from_sat_per_kvb(
                1_000 + xorshift(&mut state) % 30_000,
            )),
            max_weight: None,
        };
        let problem = SelectionProblem::new(target, inputs, ancestors);
        if !problem.has_ancestors() {
            continue;
        }
        let root = problem.selector();
        let expected = best_score(&root, &mut metric());
        // The bound never lies above what is below it.
        for mask in 0..1_usize << n {
            let mut node = root.clone();
            for i in 0..n {
                if mask & (1 << i) != 0 {
                    node.select(i);
                }
            }
            let view = node.compute_view();
            let bound = metric().bound(&view).unwrap();
            if let Some(best) = best_score(&node, &mut metric()) {
                assert!(bound <= best);
                assert!(view.fee_floor() as i128 <= best);
            }
        }
        let mut cs = problem.selector();
        match cs.run_bnb(metric(), 1_000_000) {
            Ok((score, _)) => assert_eq!(Some(score), expected),
            Err(_) => assert_eq!(expected, None),
        }
    }
}

/// Solutions come with ever lower scores, and the last one is the best.
#[test]
fn solutions_improve() {
    let candidates: Vec<Candidate> = (0..12)
        .map(|i| Candidate::new_legacy(3_000 + i * i * 137, 4 * 60))
        .collect();
    let target = Target {
        outputs: TargetOutputs {
            value_sum: 30_000,
            weight_sum: 200,
            n_outputs: 1,
        },
        fee: TargetFee::from_feerate(sat_per_vb(3)),
        max_weight: None,
    };
    let problem = SelectionProblem::new_no_ancestors(target, candidates);
    let mut iter = problem.selector().bnb_solutions(metric());
    let mut last: Option<Score> = None;
    let mut n_solutions = 0;
    while let Some(round) = iter.next() {
        if let Some((selection, score)) = round {
            assert!(last.map_or(true, |last| score < last));
            assert!(selection.is_funded());
            last = Some(score);
            n_solutions += 1;
        }
    }
    assert!(n_solutions > 0);
    let mut cs = problem.selector();
    let (score, _) = cs.run_bnb(metric(), usize::MAX).unwrap();
    assert_eq!(Some(score), last);
}

#[test]
fn running_out_of_rounds_is_reported() {
    let candidates: Vec<Candidate> = (0..20)
        .map(|i| Candidate::new_tr_keyspend(1_000 + i))
        .collect();
    let target = Target {
        outputs: TargetOutputs {
            value_sum: 8_000,
            weight_sum: 200,
            n_outputs: 1,
        },
        fee: TargetFee::from_feerate(sat_per_vb(1)),
        max_weight: None,
    };
    let problem = SelectionProblem::new_no_ancestors(target, candidates.clone());
    let mut cs = problem.selector();
    let error = cs.run_bnb(metric(), 2).unwrap_err();
    assert_eq!(
        error,
        NoBnbSolution::RoundLimit {
            max_rounds: 2,
            rounds: 2,
        }
    );
    assert_eq!(
        error.message(),
        "no bnb solution found after 2 rounds (max rounds is 2)"
    );

    let beyond_reach = problem.with_target(Target {
        outputs: TargetOutputs {
            value_sum: 8_000_000,
            ..target.outputs
        },
        ..target
    });
    let mut cs = beyond_reach.selector();
    let error = cs.run_bnb(metric(), 1_000).unwrap_err();
    assert_eq!(error, NoBnbSolution::InsufficientFunds);
    assert_eq!(
        error.message(),
        "no bnb solution: candidates cannot cover the target value"
    );

    let too_heavy = problem.with_target(Target {
        max_weight: Some(700),
        ..target
    });
    let mut cs = too_heavy.selector();
    let error = cs.run_bnb(metric(), 100_000).unwrap_err();
    assert_eq!(error, NoBnbSolution::MaxWeightExceeded);
    assert_eq!(
        error.message(),
        "no bnb solution: no selection meets the target within max_weight"
    );
    assert!(cs.is_empty());
}

/// Change that is worth having: the score is the fee and what spending the change will cost.
#[test]
fn the_score_counts_spending_the_change() {
    let target = Target {
        outputs: TargetOutputs {
            value_sum: 90_000,
            weight_sum: 200,
            n_outputs: 1,
        },
        fee: TargetFee::from_feerate(sat_per_vb(10)),
        max_weight: None,
    };
    let problem =
        SelectionProblem::new_no_ancestors(target, vec![Candidate::new_tr_keyspend(100_000)]);
    let mut cs = problem.selector();
    cs.select(0);
    let drain = metric().drain(&cs.compute_view());
    // 644 wu are 161 vbytes; spending 230 wu at 5 sat/vb costs 287.5 sats.
    assert_eq!(drain.value, 10_000 - 1_610);
    assert_eq!(metric().score(&cs.compute_view()), Some(1_610 + 288));
    assert_eq!(metric().bound(&cs.compute_view()), Some(1_610 + 288));
}
