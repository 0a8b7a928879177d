//! Selecting candidates and measuring the selection.
use bdk_coin_select::{
    AncestorToBump, Candidate, ChangePolicy, Drain, DrainWeights, FeeRate, Input,
    InsufficientFunds, Replace, SelectError, SelectionProblem, Target, TargetFee, TargetOutputs,
    CHANGE_LOWER,
};

fn sat_per_vb(rate: u64) -> FeeRate {
    FeeRate::from_sat_per_kvb(rate * 1_000)
}

fn target(rate: u64, value: u64) -> Target {
    Target {
        fee: TargetFee::from_feerate(sat_per_vb(rate)),
        outputs: TargetOutputs {
            value_sum: value,
            weight_sum: 200,
            n_outputs: 1,
        },
        max_weight: None,
    }
}

fn xorshift(state: &mut u64) -> u64 {
    *state ^= *state << 13;
    *state ^= *state >> 7;
    *state ^= *state << 17;
    *state
}

/// The running totals must depend only on which candidates are selected and banned, never on the
/// order of the operations that got there.
#[test]
fn running_totals_match_a_selector_rebuilt_from_its_sets() {
    let target = Target {
        fee: TargetFee::from_feerate(FeeRate::from_sat_per_kvb(3_700)),
        outputs: TargetOutputs::fund_outputs(&[(172, 40_000)]),
        max_weight: None,
    };
    // Two chains reachable from several candidates (0-1 and 2-3) and one only candidate 6 can
    // reach (4-5), each mixing an ancestor that pays above the target rate with one below.
    let ancestor = |txid: i32, weight: u64, fee: u64, parents: Vec<i32>| AncestorToBump {
        txid,
        weight,
        fee,
        parents,
    };
    let ancestors = vec![
        ancestor(0, 800, 100, vec![]),
        ancestor(1, 400, 9_000, vec![0]),
        ancestor(2, 1_200, 0, vec![]),
        ancestor(3, 300, 4_000, vec![2]),
        ancestor(4, 500, 50_000, vec![5]),
        ancestor(5, 900, 0, vec![]),
    ];
    let inputs = (0..9_u64)
        .map(|i| {
            vec![Input {
                value: 10_000 + i * 3_001,
                weight: 272,
                is_segwit: i % 3 != 0,
                // 9 is not an ancestor, so a coin on it is confirmed.
                residing_txid: [1, 3, 3, 2, 9, 1, 4, 3, 1][i as usize],
            }]
        })
        .collect();
    let problem = SelectionProblem::new(target, inputs, ancestors);
    assert!(problem.has_private_ancestors() && problem.has_shared_ancestors());

    let n = problem.len();
    let mut cs = problem.selector();
    let mut rng = 0x2545_f491_4f6c_dd1d_u64;
    for _ in 0..20_000 {
        rng ^= rng << 13;
        rng ^= rng >> 7;
        rng ^= rng << 17;
        let index = (rng >> 8) as usize % n;
        match rng % 4 {
            0 => {
                cs.select(index);
            }
            1 => {
                cs.deselect(index);
            }
            2 => cs.ban(index),
            _ => cs.unban(index),
        }

        let mut rebuilt = problem.selector();
        for i in cs.selected_indices().iter() {
            rebuilt.select(i);
        }
        for i in cs.banned().iter() {
            rebuilt.ban(i);
        }
        assert_eq!(cs.ancestor_totals(), rebuilt.ancestor_totals());
        assert_eq!(cs.selected_value(), rebuilt.selected_value());
        assert_eq!(cs.input_weight(), rebuilt.input_weight());
    }
}

#[test]
fn a_selection_is_measured_against_another_target() {
    let candidates = vec![
        Candidate::new_tr_keyspend(100_000),
        Candidate::new_tr_keyspend(100_000),
    ];
    let target = Target {
        outputs: TargetOutputs::fund_outputs(&[(46 * 4, 90_000)]),
        fee: TargetFee::from_feerate(sat_per_vb(1)),
        max_weight: None,
    };
    let problem = SelectionProblem::new_no_ancestors(target, candidates);
    let mut selector = problem.selector();
    selector.select(0);
    assert!(selector.is_funded());

    let bumped_problem = problem.with_target(Target {
        fee: TargetFee::from_feerate(sat_per_vb(500)),
        ..target
    });
    let bumped = selector.with_problem(&bumped_problem);
    assert_eq!(bumped.selected_indices(), selector.selected_indices());
    assert!(!bumped.is_funded(), "the bump needs another input");
}

/// 32 for the fixed fields, 4 for the input count, 2 for the witness header and 230 for the input;
/// 4 for the output count and 200 for the outputs.
#[test]
fn the_weight_of_a_keyspend() {
    let problem =
        SelectionProblem::new_no_ancestors(target(10, 90_000), vec![Candidate::new_tr_keyspend(100_000)]);
    let mut cs = problem.selector();
    assert_eq!(cs.input_weight(), 4);
    cs.select(0);
    assert_eq!(cs.input_weight(), 4 + 2 + 230);
    assert_eq!(cs.weight(DrainWeights::none()), 32 + 236 + 4 + 200);
    assert_eq!(
        cs.weight(DrainWeights::tr_keyspend()),
        32 + 236 + 4 + 200 + 172
    );
    // 472 wu are 118 vbytes.
    assert_eq!(cs.implied_fee(DrainWeights::none()), 1_180);
    assert_eq!(cs.excess(Drain::none()), 10_000 - 1_180);
    assert_eq!(cs.fee(1_000), 9_000);
    assert_eq!(cs.missing(), 0);
    assert_eq!(cs.effective_value(), 100_000 - 590);
    // 84745.76 sats per 1000 vbytes, rounded to the nearest.
    assert_eq!(
        cs.implied_feerate(Drain::none()).unwrap().sat_per_kvb(),
        84_746
    );
}

/// A legacy input serializes an empty witness once some input is segwit.
#[test]
fn mixed_inputs_share_one_witness_header() {
    let candidates = vec![
        Candidate::new_legacy(1_000, 100),
        Candidate::new_legacy(1_000, 100),
        Candidate::new_segwit(1_000, 100),
    ];
    let problem = SelectionProblem::new_no_ancestors(target(1, 0), candidates);
    let mut cs = problem.selector();
    cs.select(0);
    cs.select(1);
    assert_eq!(cs.input_weight(), 4 + 2 * 264);
    cs.select(2);
    assert_eq!(cs.input_weight(), 4 + 3 * 264 + 2 + 2);
}

#[test]
fn the_tightest_constraint_decides() {
    let mut target = target(10, 90_000);
    let candidates = vec![Candidate::new_tr_keyspend(100_000)];
    target.fee.absolute = 5_000;
    target.fee.replace = Some(Replace::new(3_000));
    let problem = SelectionProblem::new_no_ancestors(target, candidates);
    let mut cs = problem.selector();
    cs.select(0);
    let none = Drain::none();
    assert_eq!(cs.rate_excess(none), 10_000 - 1_180);
    assert_eq!(cs.rate_excess_wu(none), 10_000 - 1_180);
    assert_eq!(cs.absolute_excess(none), 5_000);
    assert_eq!(cs.replacement_excess(none), 10_000 - 3_118);
    assert_eq!(cs.replacement_excess_wu(none), 10_000 - 3_118);
    assert_eq!(cs.excess(none), 5_000);
    assert_eq!(cs.implied_fee(DrainWeights::none()), 5_000);
    assert_eq!(cs.fee_floor(), 5_000);
    assert_eq!(
        Replace::new(3_000).min_fee_to_do_replacement(473),
        3_000 + 119
    );
    assert_eq!(
        Replace::new(3_000).min_fee_to_do_replacement_wu(474),
        3_000 + 119
    );
}

/// Change takes the whole excess, and never changes whether the target is met.
#[test]
fn change_takes_the_whole_excess() {
    let problem =
        SelectionProblem::new_no_ancestors(target(10, 90_000), vec![Candidate::new_tr_keyspend(100_000)]);
    let mut cs = problem.selector();
    cs.select(0);
    let policy = ChangePolicy::min_value(DrainWeights::tr_keyspend(), 1_000);
    // 644 wu with the change are 161 vbytes.
    assert_eq!(cs.drain_value(policy), Some(10_000 - 1_610));
    let drain = cs.drain(policy);
    assert!(drain.is_some());
    assert_eq!(cs.excess(drain), 0);
    assert!(cs.is_funded_with_drain(drain));
    assert!(cs.is_funded());

    let too_little = ChangePolicy::min_value(DrainWeights::tr_keyspend(), 10_000 - 1_610);
    assert_eq!(cs.drain_value(too_little), None);
    assert!(cs.drain(too_little).is_none());
    assert!(cs.is_funded_with_drain(cs.drain(too_little)));
}

#[test]
fn banned_candidates_are_left_out() {
    let candidates = vec![
        Candidate::new_tr_keyspend(10_000),
        Candidate::new_tr_keyspend(20_000),
        Candidate::new_tr_keyspend(30_000),
    ];
    let problem = SelectionProblem::new_no_ancestors(target(1, 25_000), candidates);
    let mut cs = problem.selector();
    cs.ban(1);
    assert_eq!(cs.unselected_indices(), vec![0, 2]);
    assert_eq!(cs.describe(), "[0☐, 1✘, 2☐]");
    assert!(cs.is_fundable());
    cs.ban(2);
    assert!(!cs.is_fundable());
    cs.select_all();
    assert_eq!(cs.selected_indices().iter(), vec![0]);
    assert!(cs.is_exhausted());
    // It can still be selected by hand.
    assert!(cs.select(1));
    assert!(!cs.select(1));
    assert_eq!(cs.describe(), "[0✔, 1✔, 2✘]");
    assert!(cs.deselect(1));
    assert!(!cs.deselect(1));
    cs.unban(1);
    assert_eq!(cs.unselected_indices(), vec![1]);
    assert_eq!(cs.min_input_weight(), Some(230));
}

#[test]
fn nothing_is_described_as_nothing() {
    let problem = SelectionProblem::new_no_ancestors(target(1, 25_000), vec![]);
    let cs = problem.selector();
    assert_eq!(cs.describe(), "[]");
    assert_eq!(cs.min_input_weight(), None);
    assert!(problem.is_empty());
}

#[test]
fn candidates_are_taken_in_order_until_the_target_is_met() {
    let candidates = vec![
        Candidate::new_tr_keyspend(10_000),
        Candidate::new_tr_keyspend(30_000),
        Candidate::new_tr_keyspend(20_000),
    ];
    let problem = SelectionProblem::new_no_ancestors(target(1, 25_000), candidates.clone());
    let mut cs = problem.selector();
    assert_eq!(cs.select_until_target_met(), Ok(()));
    assert_eq!(cs.selected_indices().iter(), vec![0, 1]);

    let mut sorted = problem.selector();
    sorted.sort_candidates_by_descending_value_pwu();
    assert_eq!(
        sorted.candidates().iter().map(|(i, _)| *i).collect::<Vec<_>>(),
        vec![1, 2, 0]
    );
    assert_eq!(sorted.select_until_target_met(), Ok(()));
    assert_eq!(sorted.selected_indices().iter(), vec![1]);
    assert_eq!(
        sorted.apply_selection(&["a", "b", "c"]),
        vec![&"b"]
    );

    let mut by_value = problem.selector();
    by_value.sort_candidates_by(|a: (usize, Candidate), b: (usize, Candidate)| {
        a.1.value.cmp(&b.1.value)
    });
    assert_eq!(by_value.unselected_indices(), vec![0, 2, 1]);
    by_value.sort_candidates_by_key(|a: (usize, Candidate)| usize::MAX - a.0);
    assert_eq!(by_value.unselected_indices(), vec![2, 1, 0]);
}

#[test]
fn missing_funds_are_reported() {
    let candidates = vec![Candidate::new_tr_keyspend(10_000)];
    let problem = SelectionProblem::new_no_ancestors(target(1, 25_000), candidates);
    let mut cs = problem.selector();
    let error = cs.select_until_target_met().unwrap_err();
    // 472 wu are 118 vbytes.
    assert_eq!(
        error,
        SelectError::InsufficientFunds(InsufficientFunds {
            missing: 15_000 + 118
        })
    );
    assert_eq!(error.message(), "Insufficient funds. Missing 15118 sats.");
    assert_eq!(cs.missing(), 15_118);
}

#[test]
fn a_weight_limit_is_reported() {
    let mut target = target(1, 5_000);
    target.max_weight = Some(471);
    let problem =
        SelectionProblem::new_no_ancestors(target, vec![Candidate::new_tr_keyspend(10_000)]);
    let mut cs = problem.selector();
    let error = cs.select_until_target_met().unwrap_err();
    assert_eq!(error, SelectError::MaxWeightExceeded);
    assert_eq!(
        error.message(),
        "Selection meets the target value but exceeds `max_weight`."
    );
    assert!(!cs.is_within_max_weight(DrainWeights::none()));
    assert!(cs.is_funded());
}

#[test]
fn only_effective_candidates_are_taken() {
    // 230 wu cost 57.5 sats at 1 sat/vb.
    let candidates = vec![
        Candidate::new_tr_keyspend(57),
        Candidate::new_tr_keyspend(58),
        Candidate::new_tr_keyspend(10_000),
    ];
    let problem = SelectionProblem::new_no_ancestors(target(1, 5_000), candidates);
    let mut cs = problem.selector();
    cs.select_all_effective();
    assert_eq!(cs.selected_indices().iter(), vec![1, 2]);
    assert!(!problem.candidate(0).is_effective(sat_per_vb(1)));
    assert!(problem.candidate(1).is_effective(sat_per_vb(1)));
}

/// A random draw stops as soon as the change is large enough, and keeps what was selected before.
#[test]
fn a_random_draw_leaves_enough_change() {
    let candidates: Vec<Candidate> = (0..20)
        .map(|i| Candidate::new_tr_keyspend(10_000 + i * 1_000))
        .collect();
    let problem = SelectionProblem::new_no_ancestors(target(2, 60_000), candidates);
    for seed in 1..50_u64 {
        let mut state = seed.wrapping_mul(0x9e37_79b9_7f4a_7c15);
        let mut cs = problem.selector();
        cs.select(7);
        let drain = cs
            .select_srd(DrainWeights::tr_keyspend(), CHANGE_LOWER, || xorshift(&mut state))
            .unwrap();
        assert!(drain.value >= CHANGE_LOWER);
        assert_eq!(cs.excess(drain), 0);
        assert!(cs.is_selected(7));
    }
    let mut cs = problem.selector();
    let mut state = 1_u64;
    assert!(matches!(
        cs.select_srd(DrainWeights::tr_keyspend(), 1_000_000, || xorshift(&mut state)),
        Err(SelectError::InsufficientFunds(_))
    ));
}

#[test]
fn shuffling_keeps_every_candidate() {
    let candidates: Vec<Candidate> = (0..30).map(|i| Candidate::new_tr_keyspend(i)).collect();
    let problem = SelectionProblem::new_no_ancestors(target(1, 0), candidates);
    let mut cs = problem.selector();
    let mut state = 42_u64;
    cs.shuffle_candidates(|| xorshift(&mut state));
    let mut order = cs.unselected_indices();
    assert_ne!(order, (0..30).collect::<Vec<_>>());
    order.sort();
    assert_eq!(order, (0..30).collect::<Vec<_>>());
}

/// Undoing a selection or a ban leads back to the same totals.
#[test]
fn updates_are_undone() {
    let ancestors = vec![AncestorToBump {
        txid: 1_u8,
        weight: 400,
        fee: 10,
        parents: vec![],
    }];
    let input = |residing_txid: u8| {
        vec![Input {
            value: 50_000,
            weight: 272,
            is_segwit: true,
            residing_txid,
        }]
    };
    let problem =
        SelectionProblem::new(target(10, 10_000), vec![input(1), input(1), input(2)], ancestors);
    let mut cs = problem.selector();
    cs.select(2);
    let before = cs.clone();
    cs.select(0);
    cs.ban(1);
    cs.unban(1);
    cs.deselect(0);
    assert_eq!(cs.ancestor_totals(), before.ancestor_totals());
    assert_eq!(cs.describe(), before.describe());
    assert_eq!(cs.excess(Drain::none()), before.excess(Drain::none()));
}

/// A candidate that pays for the weight it adds does not un-fund a selection.
#[test]
fn paying_for_itself_keeps_a_selection_funded() {
    let candidates = vec![
        Candidate::new_tr_keyspend(11_000),
        // 230 wu more are 57.5 vbytes: at most 58 more at 10 sat/vb.
        Candidate::new_tr_keyspend(580),
        Candidate::new_tr_keyspend(10),
    ];
    let problem = SelectionProblem::new_no_ancestors(target(10, 9_820), candidates);
    let mut cs = problem.selector();
    cs.select(0);
    assert_eq!(cs.excess(Drain::none()), 0);
    cs.select(1);
    assert!(cs.is_funded());
    cs.select(2);
    assert!(!cs.is_funded());
}

/// Groups of inputs become one candidate, with everything that its inputs drag in.
#[test]
fn groups_are_summed() {
    let ancestors = vec![
        AncestorToBump {
            txid: "parent",
            weight: 400,
            fee: 0,
            parents: vec!["grandparent", "confirmed"],
        },
        AncestorToBump {
            txid: "grandparent",
            weight: 600,
            fee: 100,
            parents: vec![],
        },
    ];
    let group = vec![
        Input {
            value: 1_000,
            weight: 272,
            is_segwit: true,
            residing_txid: "parent",
        },
        Input {
            value: 2_000,
            weight: 592,
            is_segwit: false,
            residing_txid: "confirmed",
        },
    ];
    let problem = SelectionProblem::new(target(1, 0), vec![group], ancestors);
    assert_eq!(
        problem.candidate(0),
        Candidate {
            value: 3_000,
            weight: 864,
            segwit_count: 1,
            legacy_count: 1,
        }
    );
    assert_eq!(problem.drags_in(0), &[0_u32, 1]);
    assert_eq!(problem.private_ancestors(0), (1_000, 100));
    // 1000 wu are 250 sats at 1 sat/vb, of which 100 are paid.
    assert_eq!(problem.local_bump(0), 150);
    assert!(problem.sums_fit() && problem.fits(Drain::none()));
}

#[test]
fn problems_that_are_too_large_are_told_apart() {
    let huge = Candidate {
        value: u64::MAX,
        weight: 100,
        segwit_count: 1,
        legacy_count: 0,
    };
    let one = SelectionProblem::new_no_ancestors(target(1, 0), vec![huge]);
    assert!(one.sums_fit());
    assert!(!one.fits(Drain::none()));
    let two = SelectionProblem::new_no_ancestors(target(1, 0), vec![huge, huge]);
    assert!(!two.sums_fit());
    let small = SelectionProblem::new_no_ancestors(
        target(1, 0),
        vec![Candidate::new_tr_keyspend(10_000)],
    );
    assert!(small.fits(Drain {
        weights: DrainWeights::tr_keyspend(),
        value: 1_000,
    }));
    assert!(!small.fits(Drain {
        weights: DrainWeights::none(),
        value: u64::MAX,
    }));
}

/// A draw that gets too heavy reports that only if more candidates would have been enough.
#[test]
fn a_random_draw_that_is_too_heavy_tells_what_is_missing() {
    let candidates: Vec<Candidate> = (0..10).map(|_| Candidate::new_tr_keyspend(10_000)).collect();
    let mut target = target(1, 50_000);
    // Room for two inputs and the change.
    target.max_weight = Some(32 + 4 + 2 + 2 * 230 + 4 + 200 + 172);
    let problem = SelectionProblem::new_no_ancestors(target, candidates);
    let mut state = 5_u64;
    let mut cs = problem.selector();
    assert_eq!(
        cs.select_srd(DrainWeights::tr_keyspend(), 1_000, || xorshift(&mut state)),
        Err(SelectError::MaxWeightExceeded)
    );
    assert_eq!(cs.selected_indices().len(), 3);

    // Ten inputs and the change weigh 2714 wu, which are 679 vbytes.
    let mut cs = problem.selector();
    assert_eq!(
        cs.select_srd(DrainWeights::tr_keyspend(), 60_000, || xorshift(&mut state)),
        Err(SelectError::InsufficientFunds(InsufficientFunds {
            missing: 60_000 - (50_000 - 679)
        }))
    );
    assert_eq!(cs.selected_indices().len(), 3);
}
