//! The bump of unconfirmed ancestors in every figure that a selector reports.
use bdk_coin_select::{
    AncestorToBump, Drain, DrainWeights, FeeRate, Input, Replace, SelectionProblem, Target,
    TargetFee, TargetOutputs, TR_KEYSPEND_TXIN_WEIGHT,
};

fn sat_per_vb(rate: f32) -> FeeRate {
    FeeRate::from_sat_per_kvb((rate * 1_000.0) as u64)
}

fn simple_target(feerate: f32) -> Target {
    Target {
        outputs: TargetOutputs {
            value_sum: 100_000,
            weight_sum: 200,
            n_outputs: 1,
        },
        fee: TargetFee::from_feerate(sat_per_vb(feerate)),
        max_weight: None,
    }
}

/// An unconfirmed transaction: weight and fee.
type Tx = (u64, u64);

/// A problem where candidate `i` is worth `values[i]` and resides in transaction `spends[i]`, which
/// is confirmed where there is no such transaction.
fn problem(target: Target, values: &[u64], spends: &[usize], txs: &[Tx]) -> SelectionProblem {
    let inputs = values
        .iter()
        .zip(spends)
        .map(|(&value, &residing_txid)| {
            vec![Input {
                value,
                weight: TR_KEYSPEND_TXIN_WEIGHT,
                is_segwit: true,
                residing_txid,
            }]
        })
        .collect();
    let ancestors = txs
        .iter()
        .enumerate()
        .map(|(txid, &(weight, fee))| AncestorToBump {
            txid,
            weight,
            fee,
            parents: vec![],
        })
        .collect();
    SelectionProblem::new(target, inputs, ancestors)
}

/// One transaction paying far too little: 400 wu = 100 vB, so at 10 sat/vB it owes 1000 but paid 10
/// => a 990 bump.
const STUCK: Tx = (400, 10);

#[test]
fn zero_ancestors_backward_compatible() {
    let problem = problem(simple_target(10.0), &[200_000], &[0], &[]);
    let mut cs = problem.selector();
    cs.select(0);

    assert_eq!(cs.ancestor_bump(), 0);
    assert!(
        cs.excess(Drain::none()) > 0,
        "should meet target without ancestors"
    );
}

#[test]
fn single_ancestor_reduces_excess() {
    let target = simple_target(10.0);
    let plain = problem(target, &[200_000], &[0], &[]);
    let mut cs_no_anc = plain.selector();
    cs_no_anc.select(0);
    let excess_no_anc = cs_no_anc.excess(Drain::none());

    let with_ancestors = problem(target, &[200_000], &[0], &[STUCK]);
    let mut cs = with_ancestors.selector();
    cs.select(0);

    assert_eq!(cs.ancestor_bump(), 990);
    assert_eq!(
        excess_no_anc - cs.excess(Drain::none()),
        990,
        "the bump comes straight off the excess"
    );
}

/// A wallet that sizes its change from `implied_fee` would otherwise underpay the package.
#[test]
fn implied_fee_includes_ancestor_bump() {
    let target = simple_target(10.0);
    let plain = problem(target, &[200_000], &[0], &[]);
    let with_ancestors = problem(target, &[200_000], &[0], &[STUCK]);

    let mut without = plain.selector();
    without.select(0);
    let mut with = with_ancestors.selector();
    with.select(0);

    assert_eq!(
        with.implied_fee(DrainWeights::none()) - without.implied_fee(DrainWeights::none()),
        990,
        "implied_fee must carry the ancestor bump"
    );
}

/// A candidate with unconfirmed ancestors is within reach like any other.
#[test]
fn ancestor_candidates_are_selectable() {
    let problem = problem(simple_target(10.0), &[200_000], &[0], &[STUCK]);
    let cs = problem.selector();

    assert!(cs.banned().is_empty(), "nothing is banned any more");
    assert_eq!(cs.unselected_indices(), vec![0]);
    let with_ancestors: Vec<usize> = (0..problem.len())
        .filter(|&i| !problem.drags_in(i).is_empty())
        .collect();
    assert_eq!(with_ancestors, vec![0]);

    let mut greedy = cs.clone();
    greedy
        .select_until_target_met()
        .expect("the ancestor candidate covers the target even after its bump");
    assert!(greedy.is_selected(0));
    assert_eq!(greedy.ancestor_bump(), 990);
}

/// `excess == selected_value - target.value() - drain.value - implied_fee` must hold for every
/// combination of fee constraints.
#[test]
fn excess_and_implied_fee_agree() {
    let fixtures: [(Vec<Tx>, [usize; 2]); 3] = [
        (vec![], [0, 1]),
        (vec![STUCK], [0, 1]),
        (vec![STUCK, (1_000, 100_000)], [0, 1]),
    ];

    for (txs, spends) in &fixtures {
        for absolute in [0_u64, 5_000, 500_000] {
            for replace in [None, Some(Replace::new(1_000))] {
                for feerate in [1.0_f32, 10.0, 50.0] {
                    for drain in [
                        Drain::none(),
                        Drain {
                            weights: DrainWeights::tr_keyspend(),
                            value: 20_000,
                        },
                    ] {
                        let target = Target {
                            outputs: TargetOutputs {
                                value_sum: 100_000,
                                weight_sum: 200,
                                n_outputs: 1,
                            },
                            fee: TargetFee {
                                rate: sat_per_vb(feerate),
                                replace,
                                absolute,
                            },
                            max_weight: None,
                        };
                        let problem = problem(target, &[200_000, 50_000], spends, txs);

                        for selection in [vec![], vec![0], vec![1], vec![0, 1]] {
                            let mut cs = problem.selector();
                            for i in &selection {
                                cs.select(*i);
                            }

                            assert_eq!(
                                cs.excess(drain),
                                cs.selected_value() as i64
                                    - target.value() as i64
                                    - drain.value as i64
                                    - cs.implied_fee(drain.weights) as i64,
                                "identity broken: n_txs={} absolute={} replace={} \
                                 feerate={} drain={} selection={:?}",
                                txs.len(),
                                absolute,
                                replace.is_some(),
                                feerate,
                                drain.value,
                                selection,
                            );
                            assert_eq!(
                                cs.excess(drain),
                                cs.rate_excess(drain)
                                    .min(cs.absolute_excess(drain))
                                    .min(cs.replacement_excess(drain))
                            );
                        }
                    }
                }
            }
        }
    }
}

#[test]
fn selecting_all_effective_works_at_the_target_feerate() {
    let problem = problem(simple_target(10.0), &[200_000], &[0], &[STUCK]);
    let mut cs = problem.selector();
    cs.select_all_effective();

    assert!(cs.is_selected(0), "still worth its bump at 200_000 sats");
    assert_eq!(cs.ancestor_bump(), 990);
}
