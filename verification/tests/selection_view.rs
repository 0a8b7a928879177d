//! Cached views agree with the selectors under them.
use bdk_coin_select::{
    AncestorToBump, Candidate, Drain, FeeRate, Input, SelectionProblem, Target, TargetFee,
    TargetOutputs,
};

fn target() -> Target {
    Target {
        fee: TargetFee::zero(),
        outputs: TargetOutputs {
            value_sum: 0,
            weight_sum: 0,
            n_outputs: 0,
        },
        max_weight: None,
    }
}

fn input(value: u64, is_segwit: bool, residing_txid: u32) -> Input<u32> {
    Input {
        value,
        weight: 100,
        is_segwit,
        residing_txid,
    }
}

#[test]
fn mixed_candidate_counts_match_selector() {
    let candidates = vec![
        Candidate {
            value: 1,
            weight: 200,
            segwit_count: 1,
            legacy_count: 2,
        },
        Candidate::new_legacy(2, 100),
    ];
    let problem = SelectionProblem::new_no_ancestors(target(), candidates);
    let mut selector = problem.selector();
    selector.select_all();
    let view = selector.compute_view();
    assert_eq!(view.input_weight(), selector.input_weight());
    assert_eq!(view.selected_value(), selector.selected_value());
}

#[test]
fn shared_ancestor_is_cached_once_and_removed_on_last_sub() {
    let ancestors = vec![AncestorToBump {
        txid: 1,
        weight: 400,
        fee: 0,
        parents: vec![],
    }];
    let inputs = vec![vec![input(1_000, true, 1)], vec![input(2_000, false, 1)]];
    let problem = SelectionProblem::new(target(), inputs, ancestors);
    let selector = problem.selector();
    let mut view = selector.compute_view();
    view.add(0);
    let once = view.ancestor_bump();
    view.add(1);
    assert_eq!(view.ancestor_bump(), once);
    view.sub(0);
    assert_eq!(view.ancestor_bump(), once);
    view.sub(1);
    assert_eq!(view.ancestor_bump(), 0);
}

#[test]
fn hypothetical_banned_candidate_does_not_change_reachability() {
    let ancestors = vec![AncestorToBump {
        txid: 1,
        weight: 400,
        fee: 1_000,
        parents: vec![],
    }];
    let inputs = vec![vec![input(1_000, true, 1)], vec![input(2_000, true, 1)]];
    let problem = SelectionProblem::new(target(), inputs, ancestors);
    let mut selector = problem.selector();
    selector.ban(0);
    selector.ban(1);
    let mut view = selector.compute_view();
    let bound = view.ancestor_bump_lower_bound();

    view.add(0);
    view.sub(0);
    assert_eq!(view.ancestor_bump_lower_bound(), bound);
}

#[test]
fn cache_matches_selector_for_every_mixed_selection() {
    let candidates = vec![
        Candidate::new_segwit(1_000, 100),
        Candidate::new_legacy(2_000, 200),
        Candidate {
            value: 3_000,
            weight: 350,
            segwit_count: 2,
            legacy_count: 3,
        },
    ];
    let n = candidates.len();
    let problem = SelectionProblem::new_no_ancestors(target(), candidates);
    for mask in 0..1 << n {
        let mut selector = problem.selector();
        for index in 0..n {
            if mask & (1 << index) != 0 {
                selector.select(index);
            }
        }
        let view = selector.compute_view();
        assert_eq!(view.selected_value(), selector.selected_value());
        assert_eq!(view.input_weight(), selector.input_weight());
        assert_eq!(view.excess(Drain::none()), selector.excess(Drain::none()));
    }
}

#[test]
fn hypothetical_updates_have_set_semantics_without_ancestors() {
    let candidates = vec![
        Candidate::new_segwit(1_000, 100),
        Candidate::new_legacy(2_000, 200),
    ];
    let problem = SelectionProblem::new_no_ancestors(target(), candidates.clone());
    let mut selector = problem.selector();
    selector.select(0);
    let mut view = selector.compute_view();

    let initial_value = view.selected_value();
    let initial_weight = view.input_weight();
    view.add(0);
    assert_eq!(view.selected_value(), initial_value);
    assert_eq!(view.input_weight(), initial_weight);

    view.sub(1);
    assert_eq!(view.selected_value(), initial_value);
    assert_eq!(view.input_weight(), initial_weight);

    view.sub(0);
    view.sub(0);
    assert_eq!(view.selected_value(), 0);

    view.add(1);
    view.add(1);
    assert_eq!(view.selected_value(), candidates[1].value);
    assert_eq!(view.input_weight(), {
        let mut expected = problem.selector();
        expected.select(1);
        expected.input_weight()
    });
}

#[test]
fn is_fundable_uses_hypothetical_selection_state() {
    let mut target = target();
    target.outputs.value_sum = 2_000;
    let candidates = vec![
        Candidate::new_segwit(1_000, 100),
        Candidate::new_segwit(1_000, 100),
    ];
    let problem = SelectionProblem::new_no_ancestors(target, candidates);
    let mut selector = problem.selector();
    selector.select(0);
    let mut view = selector.compute_view();

    view.sub(0);
    assert!(view.is_fundable());
    view.add(1);
    assert!(view.is_fundable());
}

#[test]
fn is_fundable_never_rejects_an_already_funded_mixed_selection() {
    let mut target = target();
    target.outputs.value_sum = 1_000;
    target.fee = TargetFee::from_feerate(FeeRate::from_sat_per_kvb(4_000));
    let candidates = vec![
        Candidate {
            value: 1_201,
            weight: 158,
            segwit_count: 1,
            legacy_count: 0,
        },
        Candidate {
            value: 165,
            weight: 164,
            segwit_count: 0,
            legacy_count: 3,
        },
    ];
    let problem = SelectionProblem::new_no_ancestors(target, candidates);
    let mut selector = problem.selector();
    selector.select(0);
    assert!(selector.is_funded());

    let mut all = selector.clone();
    all.select(1);
    assert!(!all.is_funded());
    assert!(selector.compute_view().is_fundable());
}

#[test]
fn hypothetical_ancestor_queries_match_selector_mutations() {
    let mut target = target();
    target.fee = TargetFee::from_feerate(FeeRate::from_sat_per_kvb(4_000));
    let ancestors = vec![
        AncestorToBump {
            txid: 1,
            weight: 400,
            fee: 0,
            parents: vec![],
        },
        AncestorToBump {
            txid: 2,
            weight: 400,
            fee: 800,
            parents: vec![],
        },
    ];
    let groups = vec![
        vec![input(1_000, true, 1), input(1_000, false, 2)],
        vec![input(2_000, true, 1)],
    ];
    let problem = SelectionProblem::new(target, groups, ancestors);
    let base = problem.selector();
    let mut actual = base.clone();
    let mut hypothetical = base.compute_view();

    for index in 0..2 {
        actual.select(index);
        hypothetical.add(index);
        assert_eq!(hypothetical.ancestor_bump(), actual.ancestor_bump());
        assert_eq!(
            hypothetical.ancestor_bump_lower_bound(),
            actual.ancestor_bump_lower_bound()
        );
        assert_eq!(
            hypothetical.excess(Drain::none()),
            actual.excess(Drain::none())
        );
    }

    actual.deselect(0);
    hypothetical.sub(0);
    assert_eq!(hypothetical.ancestor_bump(), actual.ancestor_bump());
    assert_eq!(
        hypothetical.ancestor_bump_lower_bound(),
        actual.ancestor_bump_lower_bound()
    );

    // The same updates on top of a selector that bans the candidate.
    actual.ban(0);
    let mut banning = base.clone();
    banning.ban(0);
    let mut hypothetical = banning.compute_view();
    hypothetical.add(0);
    hypothetical.add(1);
    hypothetical.sub(0);
    assert_eq!(
        hypothetical.ancestor_bump_lower_bound(),
        actual.ancestor_bump_lower_bound()
    );
}
