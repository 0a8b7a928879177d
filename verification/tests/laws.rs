//! What holds of every selection, on concrete ones.
use bdk_coin_select::bnb::MetricModel;
use bdk_coin_select::metrics::{LowestFee, LowestFeeChangeless};
use bdk_coin_select::{
    AncestorToBump, BnbMetric, Candidate, ChangePolicy, CoinSelector, Drain, DrainWeights, FeeRate,
    Input, NoBnbSolution, Replace, Score, SelectionProblem, SelectionView, Target, TargetFee,
    TargetOutputs,
};

fn sat_per_vb(rate: u64) -> FeeRate {
    FeeRate::from_sat_per_kvb(rate * 1_000)
}

/// Six candidates, two of which look alike, over two ancestors that are shared and one that is not.
fn problem(rate: FeeRate, max_weight: Option<u64>) -> SelectionProblem {
    let target = Target {
        fee: TargetFee::from_feerate(rate),
        outputs: TargetOutputs {
            value_sum: 60_000,
            weight_sum: 172,
            n_outputs: 1,
        },
        max_weight,
    };
    let input = |value: u64, weight: u64, is_segwit: bool, residing_txid: &'static str| {
        vec![Input {
            value,
            weight,
            is_segwit,
            residing_txid,
        }]
    };
    let ancestor =
        |txid: &'static str, weight: u64, fee: u64, parents: Vec<&'static str>| AncestorToBump {
            txid,
            weight,
            fee,
            parents,
        };
    SelectionProblem::new(
        target,
        vec![
            input(40_000, 273, true, "tip"),
            input(35_000, 592, false, "tip"),
            input(35_000, 592, false, "tip"),
            input(25_000, 230, true, "root"),
            input(500, 275, true, "own"),
            input(30_000, 271, true, "confirmed"),
        ],
        vec![
            ancestor("root", 1_203, 150, vec![]),
            ancestor("tip", 401, 5_000, vec!["root"]),
            ancestor("own", 802, 7, vec![]),
        ],
    )
}

fn selection<'a>(problem: &'a SelectionProblem, mask: usize) -> CoinSelector<'a> {
    let mut cs = problem.selector();
    for i in 0..problem.len() {
        if mask & (1 << i) != 0 {
            cs.select(i);
        }
    }
    cs
}

#[test]
fn every_extension_keeps_to_the_bounds_of_its_root() {
    for rate in [1_000u64, 1_337, 7_900, 20_000] {
        let problem = problem(FeeRate::from_sat_per_kvb(rate), None);
        let n = problem.len();
        for mask in 0..1_usize << n {
            let cs = selection(&problem, mask);
            let view = cs.compute_view();
            let lightest = cs.min_input_weight();
            let best = view.best_reachable_rate_excess_wu();
            for below in 0..1_usize << n {
                if mask & below != mask {
                    continue;
                }
                let extended = selection(&problem, below);
                assert!(view.ancestor_bump_lower_bound() <= extended.ancestor_bump());
                assert!(view.fee_floor() <= extended.implied_fee(DrainWeights::none()));
                assert!(view.fee_floor() <= extended.implied_fee(DrainWeights::tr_keyspend()));
                assert!(extended.rate_excess_wu(Drain::none()) <= best + 1);
                assert!(extended.weight(DrainWeights::none()) >= cs.weight(DrainWeights::none()));
                if below != mask {
                    assert!(extended.input_weight() >= cs.input_weight() + lightest.unwrap());
                }
                // Only ancestors that were addable have been added.
                let addable = cs.addable_ancestors();
                for a in extended.selected_ancestors().iter() {
                    assert!(cs.selected_ancestors().contains(a) || addable.contains(a));
                }
            }
            if cs.is_fundable() {
                assert!((0..1_usize << n)
                    .any(|below| mask & below == mask && selection(&problem, below).is_funded()));
            }
        }
    }
}

#[test]
fn change_never_decides_whether_the_target_is_met() {
    let problem = problem(sat_per_vb(3), None);
    for mask in 0..1_usize << problem.len() {
        let cs = selection(&problem, mask);
        for min_value in [0u64, 294, 5_000] {
            let policy = ChangePolicy::min_value(DrainWeights::tr_keyspend(), min_value);
            let drain = cs.drain(policy);
            assert_eq!(cs.is_funded(), cs.is_funded_with_drain(drain));
            if drain.is_some() {
                assert_eq!(cs.excess(drain), 0);
                assert!(drain.value > min_value);
            }
        }
    }
}

#[test]
fn look_alikes_score_alike() {
    let problem = problem(sat_per_vb(3), None);
    assert!(problem.drag_in_the_same(1, 2));
    assert!(!problem.drag_in_the_same(0, 3));
    let mut metric = LowestFee {
        long_term_feerate: sat_per_vb(5),
        dust_relay_feerate: sat_per_vb(3),
        drain_weights: DrainWeights::tr_keyspend(),
    };
    for mask in 0..1_usize << problem.len() {
        if mask & 2 != 0 && mask & 4 == 0 {
            let one = selection(&problem, mask);
            let other = selection(&problem, (mask & !2) | 4);
            assert_eq!(
                metric.score(&one.compute_view()),
                metric.score(&other.compute_view())
            );
        }
    }
}

#[test]
fn a_heavier_selection_stays_too_heavy() {
    let problem = problem(sat_per_vb(3), Some(1_200));
    let n = problem.len();
    let mut metric = LowestFee {
        long_term_feerate: sat_per_vb(5),
        dust_relay_feerate: sat_per_vb(3),
        drain_weights: DrainWeights::tr_keyspend(),
    };
    for mask in 0..1_usize << n {
        let cs = selection(&problem, mask);
        if cs.is_within_max_weight(DrainWeights::none()) {
            continue;
        }
        assert_eq!(metric.bound(&cs.compute_view()), None);
        for below in 0..1_usize << n {
            if mask & below == mask {
                let extended = selection(&problem, below);
                assert!(!extended.is_within_max_weight(DrainWeights::none()));
                assert_eq!(metric.score(&extended.compute_view()), None);
            }
        }
    }
}

#[test]
fn waste_is_rounded_both_ways() {
    let weights = DrainWeights::tr_keyspend();
    // 172 wu at 3.7 sat/vb are 159.1 sats, 230 wu at 1.3 sat/vb are 74.75 sats.
    let (rate, later) = (
        FeeRate::from_sat_per_kvb(3_700),
        FeeRate::from_sat_per_kvb(1_300),
    );
    assert_eq!(weights.waste_floor(rate, later, 1), 233);
    assert_eq!(weights.waste_ceil(rate, later, 1), 160 + 75);
    assert_eq!(weights.spend_fee(later), 75);
    // A 253rd output makes the count take two bytes more.
    assert_eq!(weights.added_output_weight(251), 172);
    assert_eq!(weights.added_output_weight(252), 172 + 8);
    assert_eq!(weights.dust_threshold(sat_per_vb(3)), 302);
}

/// Undecided candidates that do not pay for themselves are left out of what can be reached.
#[test]
fn reachable_excess_counts_what_is_worth_selecting() {
    let target = Target {
        fee: TargetFee::from_feerate(sat_per_vb(4)),
        outputs: TargetOutputs {
            value_sum: 1_000,
            weight_sum: 0,
            n_outputs: 0,
        },
        max_weight: None,
    };
    let problem = SelectionProblem::new_no_ancestors(
        target,
        vec![
            Candidate::new_legacy(2_000, 36),
            Candidate::new_legacy(100, 36),
            Candidate::new_legacy(300, 36),
        ],
    );
    let cs = problem.selector();
    let view = cs.compute_view();
    // 40 wu so far cost 40 sats; the first and the last are worth 2300 for 400 wu.
    assert_eq!(view.best_reachable_rate_excess_wu(), -1_000 - 40 + 2_300 - 400);
    assert!(!view.every_undecided_candidate_is_worth_selecting());
    assert_eq!(view.best_undecided_value_pwu(), (2_000, 200));
    assert!(!view.has_weightless_undecided_value());
}

/// A metric over two candidates: scores by what is selected, and a bound that depends on whether the
/// first candidate is.
struct Table {
    with_first: Score,
    without_first: Score,
}

impl BnbMetric for Table {
    fn model(&self) -> MetricModel {
        unreachable!("only proofs speak of the model")
    }

    fn score(&mut self, cs: &SelectionView<'_>) -> Option<Score> {
        match (cs.selector().is_selected(0), cs.selector().is_selected(1)) {
            (false, false) => None,
            (false, true) => Some(10),
            (true, false) => Some(8),
            (true, true) => Some(9),
        }
    }

    fn bound(&mut self, cs: &SelectionView<'_>) -> Option<Score> {
        if cs.selector().is_selected(0) {
            Some(self.with_first)
        } else {
            Some(self.without_first)
        }
    }

    fn drain(&mut self, _cs: &SelectionView<'_>) -> Drain {
        Drain::none()
    }
}

fn two_candidates() -> SelectionProblem {
    SelectionProblem::new_no_ancestors(
        Target {
            fee: TargetFee::from_feerate(sat_per_vb(1)),
            outputs: TargetOutputs {
                value_sum: 100,
                weight_sum: 0,
                n_outputs: 1,
            },
            max_weight: None,
        },
        vec![
            Candidate::new_legacy(1_000, 100),
            Candidate::new_legacy(2_000, 100),
        ],
    )
}

/// What each round finds, until the search ends.
fn findings(metric: Table) -> Vec<Option<Score>> {
    let problem = two_candidates();
    let mut search = problem.selector().bnb_solutions(metric);
    let mut found = Vec::new();
    while let Some(round) = search.next() {
        found.push(round.map(|(_, score)| score));
    }
    found
}

/// The child with the lower bound is entered first, and its sibling once it is done.
#[test]
fn rounds_enter_the_more_promising_child_first() {
    // Excluding first: the root, without the first, the second alone, neither, then the first alone,
    // both, and the first without the second.
    assert_eq!(
        findings(Table {
            with_first: 5,
            without_first: 1
        }),
        vec![None, None, Some(10), None, Some(8), None, None]
    );
    // Including first, also where the bounds are the same: the root, the first alone, both, the first
    // without the second. What is without the first is not promising any more.
    for without_first in [8, 9] {
        assert_eq!(
            findings(Table {
                with_first: 5,
                without_first
            }),
            vec![None, Some(8), None, None]
        );
    }
    assert_eq!(
        findings(Table {
            with_first: 1,
            without_first: 1
        }),
        vec![None, Some(8), None, None, None, None, None]
    );
}

/// A pending sibling is left out once its bound cannot beat the best score.
#[test]
fn rounds_skip_siblings_that_cannot_beat_the_best() {
    assert_eq!(
        findings(Table {
            with_first: 10,
            without_first: 1
        }),
        vec![None, None, Some(10), None]
    );
}

/// A run stops after its last round, with the last solution that was found by then.
#[test]
fn a_run_goes_on_for_its_rounds() {
    let problem = two_candidates();
    let run = |max_rounds: usize| {
        let mut cs = problem.selector();
        let result = cs.run_bnb(
            Table {
                with_first: 5,
                without_first: 1,
            },
            max_rounds,
        );
        for i in cs.selected_indices().iter() {
            assert!(!cs.banned().contains(i));
        }
        (result.map(|(score, _)| score), cs.selected_indices().iter())
    };
    for max_rounds in [0, 1, 2] {
        assert_eq!(
            run(max_rounds),
            (
                Err(NoBnbSolution::RoundLimit {
                    max_rounds,
                    rounds: max_rounds
                }),
                vec![]
            )
        );
    }
    for max_rounds in [3, 4] {
        assert_eq!(run(max_rounds), (Ok(10), vec![1]));
    }
    for max_rounds in [5, 6, 7, 1_000] {
        assert_eq!(run(max_rounds), (Ok(8), vec![0]));
    }
}

fn segwit(value: u64, weight: u64) -> Candidate {
    Candidate {
        value,
        weight,
        segwit_count: 1,
        legacy_count: 0,
    }
}

fn segwit_problem(rate: FeeRate, weight_sum: u64, candidates: Vec<Candidate>) -> SelectionProblem {
    SelectionProblem::new_no_ancestors(
        Target {
            fee: TargetFee::from_feerate(rate),
            outputs: TargetOutputs {
                value_sum: 50_000,
                weight_sum,
                n_outputs: 1,
            },
            max_weight: None,
        },
        candidates,
    )
}

fn lowest_fee() -> LowestFee {
    LowestFee {
        long_term_feerate: sat_per_vb(5),
        dust_relay_feerate: sat_per_vb(3),
        drain_weights: DrainWeights::tr_keyspend(),
    }
}

/// The lowest score of all selections.
fn lowest_score<M: BnbMetric>(problem: &SelectionProblem, metric: &mut M) -> Option<Score> {
    (0..1_usize << problem.len())
        .filter_map(|mask| metric.score(&selection(problem, mask).compute_view()))
        .min()
}

/// Where candidates take up whole vbytes and cost whole satoshis, the search finds the optimum,
/// whatever the outputs weigh.
#[test]
fn whole_vbytes_are_searched_exactly() {
    for sat_per_kvb in [1_000u64, 1_250, 4_000, 7_750, 10_000, 13_000, 30_000] {
        for weight_sum in [100, 171, 172, 173, 174] {
            let problem = segwit_problem(
                FeeRate::from_sat_per_kvb(sat_per_kvb),
                weight_sum,
                vec![
                    segwit(30_000, 272),
                    segwit(24_995, 400),
                    segwit(25_800, 272),
                    segwit(9_990, 224),
                    segwit(41_000, 992),
                    segwit(60, 272),
                ],
            );
            assert_search_is_exact(&problem, lowest_fee());
            assert_search_is_exact(&problem, LowestFeeChangeless::from(lowest_fee()));
        }
    }
}

/// Only what can still be added has to be whole: inputs that are selected beforehand weigh what they
/// may, and can be legacy inputs.
#[test]
fn selected_inputs_may_weigh_anything() {
    for first in [segwit(11_111, 271), legacy(11_111, 593)] {
        let problem = segwit_problem(
            sat_per_vb(7),
            172,
            vec![
                first,
                segwit(20_000, 272),
                segwit(24_995, 400),
                segwit(15_800, 272),
                segwit(9_990, 228),
                segwit(31_000, 996),
            ],
        );
        let expected = (0..1_usize << problem.len())
            .filter(|mask| mask & 1 == 1)
            .filter_map(|mask| lowest_fee().score(&selection(&problem, mask).compute_view()))
            .min();
        let mut selector = problem.selector();
        selector.select(0);
        let found = selector.run_bnb(lowest_fee(), 1_000);
        assert_eq!(found.ok().map(|(score, _)| score), expected);
    }
}

fn like_inputs(weights: &[u64], fee: TargetFee, value_sum: u64) -> SelectionProblem {
    let values = [30_000, 25_800, 24_995, 18_018, 12_345, 9_990, 7_001];
    SelectionProblem::new_no_ancestors(
        Target {
            fee,
            outputs: TargetOutputs {
                value_sum,
                weight_sum: 100,
                n_outputs: 1,
            },
            max_weight: None,
        },
        values
            .iter()
            .zip(weights)
            .map(|(value, weight)| segwit(*value, *weight))
            .collect(),
    )
}

/// Inputs that weigh the same, or less the more they are worth, are searched exactly at any feerate.
#[test]
fn like_inputs_are_searched_exactly() {
    for weights in [[230; 7], [272; 7], [273; 7], [203, 204, 204, 217, 230, 231, 299]] {
        for sat_per_kvb in [1_000u64, 1_337, 7_999, 10_000, 29_999] {
            for replace in [None, replacing(0, 1), replacing(2_500, 1), replacing(900, 3)] {
                for absolute in [0, 4_000] {
                    for value_sum in [20_000, 50_000, 84_000] {
                        let fee = TargetFee {
                            rate: FeeRate::from_sat_per_kvb(sat_per_kvb),
                            absolute,
                            replace,
                        };
                        let problem = like_inputs(&weights, fee, value_sum);
                        assert_search_is_exact(&problem, LowestFeeChangeless::from(lowest_fee()));
                        let grows = match replace {
                            Some(replace) => {
                                replace.incremental_relay_feerate.sat_per_kvb() >= sat_per_kvb
                                    || replace.fee == 0
                            }
                            None => true,
                        };
                        if absolute == 0 && grows {
                            assert_search_is_exact(&problem, lowest_fee());
                        }
                    }
                }
            }
        }
    }
}

/// At any rate and weight the search finds the optimum up to what rounding can cost.
#[test]
fn rounding_costs_a_search_little() {
    for rate in [1_000u64, 1_337, 4_001, 7_900, 29_999] {
        let problem = segwit_problem(
            FeeRate::from_sat_per_kvb(rate),
            173,
            vec![
                segwit(30_000, 273),
                segwit(24_995, 401),
                segwit(25_800, 230),
                segwit(9_990, 999),
                segwit(41_000, 571),
                segwit(60, 202),
            ],
        );
        let expected = lowest_score(&problem, &mut lowest_fee()).unwrap();
        let (found, _) = problem.selector().run_bnb(lowest_fee(), 1_000).unwrap();
        assert!(expected <= found);
        assert!(found <= expected + (rate as i128 * 3 + 3_996) / 4_000);
    }
}

/// Rounding to whole vbytes can put the bound above the score of a selection.
#[test]
fn rounding_can_cost_the_bound() {
    let problem = SelectionProblem::new_no_ancestors(
        Target {
            fee: TargetFee::from_feerate(sat_per_vb(4)),
            outputs: TargetOutputs {
                value_sum: 0,
                weight_sum: 99,
                n_outputs: 1,
            },
            max_weight: None,
        },
        vec![segwit(415, 272), segwit(412, 271)],
    );
    let mut metric = lowest_fee();
    assert_eq!(metric.bound(&problem.selector().compute_view()), Some(415));
    assert_eq!(
        metric.score(&selection(&problem, 2).compute_view()),
        Some(412)
    );

    let problem = SelectionProblem::new_no_ancestors(
        Target {
            fee: TargetFee::from_feerate(sat_per_vb(4)),
            outputs: TargetOutputs {
                value_sum: 100,
                weight_sum: 100,
                n_outputs: 1,
            },
            max_weight: None,
        },
        vec![segwit(448, 203), segwit(444, 202)],
    );
    assert_eq!(metric.bound(&problem.selector().compute_view()), Some(348));
    assert_eq!(
        metric.score(&selection(&problem, 2).compute_view()),
        Some(344)
    );
}

/// The first of two candidates, taken by its density, pays more than the second would.
fn assert_bound_is_missed(sat_per_kvb: u64, candidates: Vec<Candidate>, bound: Score, score: Score) {
    let problem = SelectionProblem::new_no_ancestors(
        Target {
            fee: TargetFee::from_feerate(FeeRate::from_sat_per_kvb(sat_per_kvb)),
            outputs: TargetOutputs {
                value_sum: 0,
                weight_sum: 100,
                n_outputs: 1,
            },
            max_weight: None,
        },
        candidates,
    );
    let mut metric = lowest_fee();
    assert_eq!(
        metric.bound(&problem.selector().compute_view()),
        Some(bound)
    );
    assert_eq!(
        metric.score(&selection(&problem, 2).compute_view()),
        Some(score)
    );
}

/// Whole vbytes alone do not make the bound exact: not where legacy and segwit inputs are mixed, where
/// the feerate asks for fractions of satoshis, or where inputs are too many to be counted in a byte.
#[test]
fn framing_and_fractions_can_cost_the_bound() {
    assert_bound_is_missed(4_000, vec![segwit(416, 272), legacy(412, 272)], 416, 412);
    assert_bound_is_missed(1_500, vec![legacy(803, 2_000), legacy(801, 1_996)], 803, 801);
    let many = Candidate {
        segwit_count: 253,
        ..segwit(60_152, 60_000)
    };
    assert_bound_is_missed(4_000, vec![many, segwit(60_144, 60_000)], 60_152, 60_144);
}

/// Rates are the same where they ask for the same.
#[test]
fn rates_are_what_they_ask_for() {
    assert_eq!(FeeRate::from_vb(7, 1), FeeRate::from_sat_per_kvb(7_000));
    assert_eq!(FeeRate::from_wu(7, 4), sat_per_vb(7));
    assert!(FeeRate::from_sat_per_kvb(7_001) != sat_per_vb(7));
}

/// The lowest score of all selections is what branch and bound finds.
fn assert_search_is_exact<M: BnbMetric + Copy>(problem: &SelectionProblem, metric: M) {
    let expected = lowest_score(problem, &mut metric.clone());
    let found = problem.selector().run_bnb(metric, 100_000);
    assert_eq!(found.ok().map(|(score, _)| score), expected);
}

fn replacing(fee: u64, sat_per_vbyte: u64) -> Option<Replace> {
    Some(Replace {
        fee,
        incremental_relay_feerate: sat_per_vb(sat_per_vbyte),
    })
}

fn replacements() -> Vec<Option<Replace>> {
    vec![
        None,
        replacing(0, 1),
        replacing(150, 1),
        replacing(4_000, 1),
        replacing(4_000, 13),
        replacing(900, 40),
        replacing(20_000, 2),
    ]
}

/// Candidates that pay at every feerate that is asked for.
fn dense_problem(fee: TargetFee, value_sum: u64) -> SelectionProblem {
    SelectionProblem::new_no_ancestors(
        Target {
            fee,
            outputs: TargetOutputs {
                value_sum,
                weight_sum: 174,
                n_outputs: 1,
            },
            max_weight: None,
        },
        vec![
            segwit(30_000, 272),
            segwit(24_995, 400),
            segwit(25_800, 272),
            segwit(9_990, 228),
            segwit(41_000, 996),
            segwit(12_345, 272),
            segwit(7_001, 264),
        ],
    )
}

/// Whatever replacement and absolute fee decide, the search without change finds the optimum.
#[test]
fn the_search_without_change_is_exact_for_every_target() {
    for rate in [1, 4, 13, 30] {
        for replace in replacements() {
            for absolute in [0, 2_000, 9_000, 30_000] {
                for value_sum in [20_000, 50_000, 84_000] {
                    let fee = TargetFee {
                        rate: sat_per_vb(rate),
                        absolute,
                        replace,
                    };
                    let problem = dense_problem(fee, value_sum);
                    assert_search_is_exact(&problem, LowestFeeChangeless::from(lowest_fee()));
                }
            }
        }
    }
}

/// Where what is owed grows with weight, the search finds the lowest fee whether the feerate decides
/// or the replacement.
#[test]
fn the_search_is_exact_where_a_replacement_decides() {
    for rate in [1, 4, 13, 30] {
        for replace in replacements() {
            let grows = match replace {
                Some(replace) => {
                    replace.incremental_relay_feerate.sat_per_kvb() >= rate * 1_000
                        || replace.fee == 0
                }
                None => true,
            };
            if !grows {
                continue;
            }
            for value_sum in [20_000, 50_000, 84_000] {
                let fee = TargetFee {
                    rate: sat_per_vb(rate),
                    absolute: 40 * rate,
                    replace,
                };
                assert_search_is_exact(&dense_problem(fee, value_sum), lowest_fee());
            }
        }
    }
}

/// With ancestors the search is exact at any rate and weight: without change for every target, and
/// with change where what is owed grows with weight.
#[test]
fn the_search_with_ancestors_is_exact() {
    for rate in [1_000u64, 1_337, 7_900, 20_000] {
        let plain = problem(FeeRate::from_sat_per_kvb(rate), None);
        for replace in replacements() {
            for absolute in [0, 5_000] {
                let fee = TargetFee {
                    rate: FeeRate::from_sat_per_kvb(rate),
                    absolute,
                    replace,
                };
                let problem = plain.with_target(Target {
                    fee,
                    ..plain.target()
                });
                assert_search_is_exact(&problem, LowestFeeChangeless::from(lowest_fee()));
                let grows = match replace {
                    Some(replace) => {
                        replace.incremental_relay_feerate.sat_per_kvb() >= rate
                    }
                    None => true,
                };
                if absolute == 0 && grows {
                    assert_search_is_exact(&problem, lowest_fee());
                }
            }
        }
    }
}

fn legacy(value: u64, weight: u64) -> Candidate {
    Candidate {
        value,
        weight,
        segwit_count: 0,
        legacy_count: 1,
    }
}

fn bare_target(fee: TargetFee, value_sum: u64) -> Target {
    Target {
        fee,
        outputs: TargetOutputs {
            value_sum,
            weight_sum: 0,
            n_outputs: 0,
        },
        max_weight: None,
    }
}

/// A candidate that pays at the replacement's feerate, but not at the target's, is taken and leaves
/// the target uncovered, though another selection covers it.
#[test]
fn candidates_between_two_feerates_can_cost_the_bound() {
    let fee = TargetFee {
        rate: sat_per_vb(8),
        absolute: 0,
        replace: replacing(1_000, 1),
    };
    let problem = SelectionProblem::new_no_ancestors(
        bare_target(fee, 10_000),
        vec![legacy(11_060, 260), legacy(1_000, 900), legacy(20, 20)],
    );
    let mut metric = lowest_fee();
    assert_eq!(metric.bound(&problem.selector().compute_view()), None);
    assert_eq!(
        metric.score(&selection(&problem, 0b101).compute_view()),
        Some(1_080)
    );
}

/// Where an absolute fee decides, change can be added for less than its weight costs.
#[test]
fn a_deciding_absolute_fee_can_cost_the_bound() {
    let fee = TargetFee {
        rate: FeeRate::from_sat_per_kvb(2_000),
        absolute: 714,
        replace: None,
    };
    let problem = SelectionProblem::new_no_ancestors(
        Target {
            fee,
            outputs: TargetOutputs {
                value_sum: 930,
                weight_sum: 200,
                n_outputs: 1,
            },
            max_weight: None,
        },
        vec![segwit(1_879, 250), segwit(1_185, 204)],
    );
    let mut metric = LowestFee {
        long_term_feerate: sat_per_vb(1),
        ..lowest_fee()
    };
    let node = selection(&problem, 1);
    let below = selection(&problem, 3);
    assert!(node.is_funded() && metric.drain_value(&node.compute_view()).is_none());
    assert!(
        metric.bound(&node.compute_view()) > metric.score(&below.compute_view())
            && metric.score(&below.compute_view()).is_some()
    );
}

fn cheap_change() -> LowestFee {
    LowestFee {
        long_term_feerate: FeeRate::zero(),
        dust_relay_feerate: FeeRate::zero(),
        drain_weights: DrainWeights {
            output_weight: 4,
            spend_weight: 4,
            n_outputs: 1,
        },
    }
}

/// Where a replacement at a lower feerate decides, change can be added for less than its weight
/// costs at the target rate.
#[test]
fn a_deciding_lower_replacement_can_cost_the_bound() {
    let fee = TargetFee {
        rate: sat_per_vb(2),
        absolute: 0,
        replace: Some(Replace {
            fee: 2_628,
            incremental_relay_feerate: FeeRate::from_sat_per_kvb(500),
        }),
    };
    let problem = SelectionProblem::new_no_ancestors(
        Target {
            fee,
            outputs: TargetOutputs {
                value_sum: 1_111,
                weight_sum: 100,
                n_outputs: 1,
            },
            max_weight: None,
        },
        vec![segwit(3_986, 230), segwit(3_175, 272)],
    );
    let mut metric = LowestFee {
        long_term_feerate: FeeRate::zero(),
        dust_relay_feerate: sat_per_vb(3),
        drain_weights: DrainWeights {
            output_weight: 172,
            spend_weight: 230,
            n_outputs: 1,
        },
    };
    assert_eq!(
        metric.bound(&selection(&problem, 1).compute_view()),
        Some(2_761)
    );
    assert_eq!(
        metric.score(&selection(&problem, 3).compute_view()),
        Some(2_730)
    );
}

fn assert_window_is_missed(
    fee: TargetFee,
    outputs: (u64, u64),
    candidates: Vec<Candidate>,
    score: Score,
) {
    let (value_sum, weight_sum) = outputs;
    let problem = SelectionProblem::new_no_ancestors(
        Target {
            fee,
            outputs: TargetOutputs {
                value_sum,
                weight_sum,
                n_outputs: 1,
            },
            max_weight: None,
        },
        candidates,
    );
    let mut metric = LowestFeeChangeless::from(cheap_change());
    assert_eq!(metric.bound(&selection(&problem, 1).compute_view()), None);
    assert_eq!(
        metric.score(&selection(&problem, 3).compute_view()),
        Some(score)
    );
}

/// A selection that has overshot the window without change can be led back into it: by candidates that
/// do not pay at a replacement's feerate, by groups that take more framing than single inputs, and by
/// the rounding of a replacement's feerate that is far above the target's.
#[test]
fn excess_that_falls_can_cost_the_bound() {
    let fee = TargetFee {
        rate: sat_per_vb(1),
        absolute: 0,
        replace: replacing(715, 18),
    };
    assert_window_is_missed(
        fee,
        (1_417, 124),
        vec![segwit(5_718, 568), segwit(3_488, 836)],
        7_789,
    );
    let group = Candidate {
        legacy_count: 60,
        ..legacy(6_748, 2_337)
    };
    assert_window_is_missed(
        TargetFee::from_feerate(sat_per_vb(10)),
        (230, 172),
        vec![group, segwit(1_064, 420)],
        7_582,
    );
    let fee = TargetFee {
        rate: FeeRate::zero(),
        absolute: 0,
        replace: replacing(0, 8),
    };
    assert_window_is_missed(fee, (0, 100), vec![segwit(697, 202), segwit(403, 201)], 1_100);
}

/// A candidate without weight lets change use up what rounding to whole vbytes left over, unless the
/// change takes up whole vbytes.
#[test]
fn weightless_candidates_can_cost_the_bound() {
    let input = |value: u64, weight: u64, residing_txid: &'static str| {
        vec![Input {
            value,
            weight,
            is_segwit: false,
            residing_txid,
        }]
    };
    let problem = SelectionProblem::new(
        bare_target(TargetFee::from_feerate(sat_per_vb(4)), 1_000),
        vec![input(1_804, 261, "confirmed"), input(10_000, 0, "tip")],
        vec![AncestorToBump {
            txid: "tip",
            weight: 400,
            fee: 4_000,
            parents: vec![],
        }],
    );
    let mut metric = LowestFee {
        long_term_feerate: FeeRate::zero(),
        dust_relay_feerate: sat_per_vb(1_000),
        drain_weights: DrainWeights {
            output_weight: 3,
            spend_weight: 1,
            n_outputs: 1,
        },
    };
    let node = selection(&problem, 1);
    assert_eq!(metric.bound(&node.compute_view()), Some(307));
    assert_eq!(
        metric.score(&selection(&problem, 3).compute_view()),
        Some(304)
    );
    metric.drain_weights.output_weight = 4;
    let bound = metric.bound(&node.compute_view()).unwrap();
    assert!(bound <= metric.score(&selection(&problem, 3).compute_view()).unwrap());
}
