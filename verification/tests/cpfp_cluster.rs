//! What spending unconfirmed outputs costs, from the graph of unconfirmed transactions.
use bdk_coin_select::{Bitset, BumpTable, Cluster, ClusterError, FeeRate, MempoolTx};

fn sat_per_vb(rate: u64) -> FeeRate {
    FeeRate::from_sat_per_kvb(rate * 1_000)
}

fn rate() -> FeeRate {
    sat_per_vb(10)
}

fn tx(weight: u64, fee: u64, parents: Vec<usize>) -> MempoolTx {
    MempoolTx {
        weight,
        fee,
        parents,
    }
}

fn try_cluster(
    txs: Vec<MempoolTx>,
    spends: Vec<(usize, usize)>,
) -> Result<Cluster, ClusterError> {
    Cluster::new(txs, spends)
}

fn selected(n_candidates: usize, selection: &[usize]) -> Bitset {
    let mut set = Bitset::with_capacity(n_candidates);
    for &i in selection {
        set.insert(i);
    }
    set
}

/// The bump that a selection owes at the fixture's feerate.
fn bump(cluster: &Cluster, n_candidates: usize, selection: &[usize]) -> u64 {
    BumpTable::from_cluster(cluster, rate()).combined(&selected(n_candidates, selection))
}

/// A deficient parent with nothing to carry it has to be bumped, in full.
#[test]
fn a_deficient_ancestor_alone_is_charged_in_full() {
    // 1000 wu = 250 vB. At 10 sat/vB it owes 2500 but paid 500.
    let cluster = try_cluster(vec![tx(1_000, 500, vec![])], vec![(0, 0)]).unwrap();

    assert_eq!(bump(&cluster, 1, &[0]), 2_000);
}

/// A deficient parent already carried by an overpaying child that we are *not* spending. A miner
/// includes both, so the parent needs no bump.
#[test]
fn a_parent_carried_by_someone_elses_child_needs_no_bump() {
    let cluster = try_cluster(
        vec![
            tx(1_000, 500, vec![]),  // 0: parent, 250 vB, owes 2500, paid 500
            tx(400, 4_000, vec![0]), // 1: its child, 100 vB, pays 4000
        ],
        // We spend the *parent*. The child is someone else's, or another of ours.
        vec![(0, 0)],
    )
    .unwrap();

    // Package {0,1} is 350 vB paying 4500 against 3500 owed, so a miner takes both.
    assert_eq!(
        bump(&cluster, 1, &[0]),
        0,
        "the child already pays for the parent"
    );
}

/// Spending a grandchild pulls in the grandparent.
#[test]
fn transitive_ancestors_are_pulled_in_automatically() {
    let cluster = try_cluster(
        vec![
            tx(400, 0, vec![]),  // 0: grandparent, 100 vB, pays nothing
            tx(400, 0, vec![0]), // 1: parent
            tx(400, 0, vec![1]), // 2: the tx we spend
        ],
        vec![(0, 2)],
    )
    .unwrap();

    // All three are unmined: 1200 wu = 300 vB, owes 3000, paid 0.
    assert_eq!(bump(&cluster, 1, &[0]), 3_000);
    assert_eq!(cluster.package_of(0).iter(), vec![0, 1, 2]);
}

/// A transaction shared by two selected candidates is paid for once.
#[test]
fn a_shared_ancestor_is_charged_once() {
    let cluster = try_cluster(
        vec![
            tx(400, 0, vec![]),  // 0: shared parent
            tx(400, 0, vec![0]), // 1: spent by candidate 0
            tx(400, 0, vec![0]), // 2: spent by candidate 1
        ],
        vec![(0, 1), (1, 2)],
    )
    .unwrap();

    // One candidate: parent + its own tx = 800 wu = 200 vB => 2000.
    assert_eq!(bump(&cluster, 2, &[0]), 2_000);
    assert_eq!(bump(&cluster, 2, &[1]), 2_000);
    // Both: parent counted once => 1200 wu = 300 vB => 3000, not 4000.
    assert_eq!(bump(&cluster, 2, &[0, 1]), 3_000);
}

/// A cluster already paying above the target is mined entirely, so nothing is owed.
#[test]
fn a_cluster_above_the_target_owes_nothing() {
    let cluster = try_cluster(
        vec![tx(400, 10_000, vec![]), tx(400, 10_000, vec![0])],
        vec![(0, 1)],
    )
    .unwrap();

    assert_eq!(bump(&cluster, 1, &[0]), 0);
    assert_eq!(
        bump(&cluster, 1, &[]),
        0,
        "the empty subset always owes zero"
    );
}

/// Mining is package-wise, so a deficient parent is carried by an overpaying descendant we *are*
/// spending.
#[test]
fn an_overpaying_descendant_carries_its_deficient_parent() {
    let cluster = try_cluster(
        vec![
            tx(1_000, 500, vec![]),  // 250 vB, owes 2500, paid 500
            tx(400, 4_000, vec![0]), // 100 vB, pays 4000
        ],
        vec![(0, 1)], // we spend the child
    )
    .unwrap();

    assert_eq!(bump(&cluster, 1, &[0]), 0);
}

#[test]
fn malformed_clusters_are_rejected() {
    let error = try_cluster(vec![tx(400, 0, vec![7])], vec![]).unwrap_err();
    assert_eq!(error, ClusterError::ParentOutOfBounds { tx: 0, parent: 7 });
    assert_eq!(
        error.message(),
        "transaction 0 names parent 7, which is not in the cluster"
    );
    let error = try_cluster(vec![tx(400, 0, vec![])], vec![(0, 3)]).unwrap_err();
    assert_eq!(
        error,
        ClusterError::SpendOutOfBounds {
            candidate: 0,
            tx: 3
        }
    );
    assert_eq!(
        error.message(),
        "candidate 0 spends transaction 3, which is not in the cluster"
    );
    let error =
        try_cluster(vec![tx(400, 0, vec![1]), tx(400, 0, vec![0])], vec![(0, 0)]).unwrap_err();
    assert!(matches!(error, ClusterError::Cycle { .. }));
    assert!(error
        .message()
        .starts_with("the parent relation cycles through transaction "));
}

/// A child may come before its parent.
#[test]
fn parents_may_come_later() {
    let cluster = try_cluster(
        vec![tx(400, 4_000, vec![1]), tx(1_000, 500, vec![])],
        vec![(0, 0)],
    )
    .unwrap();

    // Package {parent, child}: 350 vB paying 4500 against 3500 owed => mined, nothing to bump.
    assert_eq!(bump(&cluster, 1, &[0]), 0);
    assert_eq!(cluster.mine(rate()).len(), 2);
}

/// Selecting a bump-neutral candidate leaves the package price alone.
#[test]
fn selecting_a_bump_neutral_candidate_does_not_move_the_price() {
    let cluster = try_cluster(
        vec![tx(400, 2_000, vec![]), tx(400, 10, vec![])],
        vec![(0, 0), (1, 1)],
    )
    .unwrap();

    // Neutral candidate alone, and added on top of the stuck one: neither changes anything.
    assert_eq!(bump(&cluster, 2, &[]), 0);
    assert_eq!(bump(&cluster, 2, &[0]), 0);
    assert_eq!(bump(&cluster, 2, &[1]), 990);
    assert_eq!(bump(&cluster, 2, &[0, 1]), 990);
}

/// The sum of what each candidate owes is never below what they owe together.
#[test]
fn the_local_sum_never_undercuts_the_package_for_any_cluster() {
    // Deterministic xorshift, so a counterexample is reproducible from its seed.
    let mut state = 0x2545F4914F6CDD1D_u64;
    let mut next = move || {
        state ^= state << 13;
        state ^= state >> 7;
        state ^= state << 17;
        state
    };

    for trial in 0..2_000 {
        let n_txs = 1 + (next() % 6) as usize;
        let mut txs = Vec::new();
        for i in 0..n_txs {
            // Parents are always earlier transactions, so the graph is acyclic by construction.
            let mut parents = Vec::new();
            for p in 0..i {
                if next() % 3 == 0 {
                    parents.push(p);
                }
            }
            let weight = 400 + (next() % 1_200) / 4 * 4;
            // Fees straddle the target rate so both mined and stuck transactions occur.
            let fee = (weight / 4) * (next() % 30);
            txs.push(tx(weight, fee, parents));
        }

        let n_candidates = 1 + (next() % 4) as usize;
        let spends: Vec<(usize, usize)> = (0..n_candidates)
            .map(|c| (c, (next() % n_txs as u64) as usize))
            .collect();

        let cluster = try_cluster(txs, spends).expect("acyclic by construction");
        let table = BumpTable::from_cluster(&cluster, rate());

        for mask in 0..(1_u32 << n_candidates) {
            let selection: Vec<usize> =
                (0..n_candidates).filter(|b| mask & (1 << b) != 0).collect();
            let local: u64 = selection.iter().map(|&i| table.individual(i)).sum();
            let combined = bump(&cluster, n_candidates, &selection);
            assert!(
                local >= combined,
                "trial {}: local sum {} undercuts the package {} for selection {:?}",
                trial,
                local,
                combined,
                selection
            );
        }
    }
}

/// Two candidates that share a parent which two other children overpay, but neither alone.
#[test]
fn what_candidates_share_can_overpay_in_a_diamond() {
    let cluster = try_cluster(
        vec![
            tx(400, 0, vec![]),
            tx(4, 900, vec![0]),
            tx(4, 900, vec![0]),
            tx(400, 0, vec![1, 2]),
            tx(400, 0, vec![1, 2]),
        ],
        vec![(0, 3), (1, 4)],
    )
    .unwrap();
    assert!(cluster.mine(rate()).is_empty());
    let table = BumpTable::from_cluster(&cluster, rate());
    // 808 wu = 202 vB owe 2020 of which 1800 are paid.
    assert_eq!(table.individual(0), 220);
    assert_eq!(table.individual(1), 220);
    // 1208 wu = 302 vB owe 3020 of which 1800 are paid.
    assert_eq!(table.combined(&selected(2, &[0, 1])), 1_220);
}

#[test]
fn shared_ancestors_are_deduplicated() {
    let cluster = try_cluster(vec![tx(400, 10, vec![])], vec![(0, 0), (1, 0)]).unwrap();
    assert_eq!(
        bump(&cluster, 2, &[0]),
        bump(&cluster, 2, &[0, 1]),
        "a shared ancestor is paid for once, however many dependents are selected"
    );
}

#[test]
fn the_local_sum_never_undercuts_the_package() {
    let cluster = try_cluster(vec![tx(400, 10, vec![])], vec![(0, 0), (1, 0)]).unwrap();
    let table = BumpTable::from_cluster(&cluster, rate());

    let local: u64 = (0..2).map(|i| table.individual(i)).sum();
    let combined = table.combined(&selected(2, &[0, 1]));

    assert_eq!(combined, 990, "the shared ancestor is charged once");
    assert_eq!(local, 1_980, "but each candidate is charged for it alone");
    assert!(local >= combined, "the search must over-reserve, not under");
    assert_eq!(table.individual_bumps(), vec![(0, 990), (1, 990)]);
    assert_eq!(table.candidates(), vec![0, 1]);
    assert_eq!(table.max_candidate_index(), Some(1));
    assert_eq!(table.feerate(), rate());
    assert_eq!(table.individual(7), 0);
}

#[test]
fn ancestor_package_above_target_contributes_zero_bump() {
    let cluster = try_cluster(vec![tx(400, 10_000, vec![])], vec![(0, 0)]).unwrap();
    assert_eq!(bump(&cluster, 1, &[0]), 0);
}

#[test]
fn different_feerates_produce_different_bump_fees() {
    let bump_at = |feerate: u64| {
        let cluster = try_cluster(vec![tx(400, 100, vec![])], vec![(0, 0)]).unwrap();
        BumpTable::from_cluster(&cluster, sat_per_vb(feerate)).combined(&selected(1, &[0]))
    };

    assert!(
        bump_at(20) > bump_at(5),
        "a higher feerate owes more of a bump"
    );
}

/// A miner includes a transaction only with its ancestors, and leaves behind what pays too little.
#[test]
fn mining_takes_whole_packages() {
    let cluster = try_cluster(
        vec![
            tx(400, 500, vec![]),    // 100 vB, pays 5 sat/vB
            tx(400, 1_600, vec![0]), // with its parent 10.5 sat/vB
            tx(400, 990, vec![]),    // 9.9 sat/vB
            tx(400, 1_005, vec![2]), // with its parent 9.975 sat/vB
        ],
        vec![],
    )
    .unwrap();
    assert_eq!(cluster.mine(rate()).iter(), vec![0, 1]);
    assert_eq!(cluster.mine(sat_per_vb(9)).iter(), vec![0, 1, 2, 3]);
    assert_eq!(cluster.mine(sat_per_vb(100)).iter(), Vec::<usize>::new());
    assert_eq!(cluster.n_txs(), 4);
    assert_eq!(cluster.tx(3).fee, 1_005);
    assert!(cluster.candidates().is_empty());
}

/// What is mined pays at least the feerate as a whole, though single transactions may not.
#[test]
fn what_is_mined_pays_its_way() {
    let cluster = try_cluster(
        vec![
            tx(1_000, 500, vec![]),
            tx(401, 4_000, vec![0]),
            tx(403, 10, vec![]),
            tx(407, 2_000, vec![0, 2]),
            tx(800, 900, vec![1]),
        ],
        vec![],
    )
    .unwrap();
    for sat_per_kvb in [0u64, 1_000, 3_333, 4_999, 9_000, 12_000, 50_000] {
        let feerate = FeeRate::from_sat_per_kvb(sat_per_kvb);
        let mined = cluster.mine(feerate);
        let weight: u64 = mined.iter().into_iter().map(|i| cluster.tx(i).weight).sum();
        let fee: u64 = mined.iter().into_iter().map(|i| cluster.tx(i).fee).sum();
        assert!(fee >= feerate.implied_fee_wu(weight));
    }
    // No fee can be as high as this rate asks for the whole cluster.
    let heavy = try_cluster(vec![tx(9_000, 5_000, vec![]), tx(1, 0, vec![0])], vec![]).unwrap();
    assert!(heavy.mine(FeeRate::from_sat_per_kvb(u64::MAX)).is_empty());
    // The parent pays 2 sat/vB by itself, and is carried.
    assert!(cluster.mine(sat_per_vb(12)).contains(0));
}
