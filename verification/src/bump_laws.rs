//! What is mined, and what it takes to bump what is left behind.
use crate::bitset;
use crate::bitset::Bitset;
use crate::bump_table::{BumpTable, TableView};
use crate::cluster_graph;
use crate::cluster_graph::{ClusterView, TxView};
use crate::fee_laws;
use crate::feerate::FeeRate;
use crate::mempool;
use crate::mempool::{Cluster, ClusterError, MempoolTx};
use crate::sums;
use vstd::prelude::*;

verus! {

/// Ancestors are the transaction itself, the parents of ancestors, and nothing beyond that.
pub proof fn ancestors_are_parents_of_ancestors(txs: Seq<TxView>, tx: int, set: Seq<bool>)
    requires
        0 <= tx < txs.len(),
        cluster_graph::parents_in_bounds(txs),
    ensures
        cluster_graph::is_ancestor(txs, tx, tx),
        forall|a: int, k: int|
            0 <= a < txs.len() && cluster_graph::is_ancestor(txs, tx, a) && 0 <= k
                < txs[a].parents.len() ==> cluster_graph::is_ancestor(
                txs,
                tx,
                #[trigger] txs[a].parents[k] as int,
            ),
        set.len() == txs.len() && set[tx] && (forall|a: int, k: int|
            0 <= a < txs.len() && set[a] && 0 <= k < txs[a].parents.len() ==> set[
            #[trigger] txs[a].parents[k] as int]) ==> forall|a: int|
            #[trigger] cluster_graph::is_ancestor(txs, tx, a) ==> set[a],
{
    cluster_graph::ancestor_reflexive(txs, tx);
    assert forall|a: int, k: int|
        0 <= a < txs.len() && cluster_graph::is_ancestor(txs, tx, a) && 0 <= k
            < txs[a].parents.len() implies cluster_graph::is_ancestor(
        txs,
        tx,
        #[trigger] txs[a].parents[k] as int,
    ) by {
        let p = txs[a].parents[k] as int;
        cluster_graph::ancestor_reflexive(txs, p);
        assert(cluster_graph::is_parent(txs, a, p));
        cluster_graph::ancestor_by_parent(txs, a, p, p);
        cluster_graph::ancestor_transitive(txs, tx, a, p);
    }
    if set.len() == txs.len() && set[tx] && (forall|a: int, k: int|
        0 <= a < txs.len() && set[a] && 0 <= k < txs[a].parents.len() ==> set[
        #[trigger] txs[a].parents[k] as int]) {
        assert forall|a: int| #[trigger] cluster_graph::is_ancestor(txs, tx, a) implies set[a] by {
            let path = choose|path: Seq<int>| #[trigger]
                cluster_graph::is_path(txs, path) && path[0] == tx && path.last() == a;
            crate::ancestry::closed_has_ancestors(txs, set, path);
        }
    }
}

/// A transaction is on a cycle if it is an ancestor of one of its parents.
pub proof fn cycles_lead_back(txs: Seq<TxView>, tx: int)
    requires
        0 <= tx < txs.len(),
        cluster_graph::parents_in_bounds(txs),
    ensures
        cluster_graph::on_cycle(txs, tx) <==> exists|k: int|
            0 <= k < txs[tx].parents.len() && cluster_graph::is_ancestor(
                txs,
                #[trigger] txs[tx].parents[k] as int,
                tx,
            ),
{
    if cluster_graph::on_cycle(txs, tx) {
        let parent = cluster_graph::cycle_by_parent(txs, tx);
        let k = choose|k: int|
            0 <= k < txs[tx].parents.len() && #[trigger] txs[tx].parents[k] == parent;
        assert(cluster_graph::is_ancestor(txs, txs[tx].parents[k] as int, tx));
    }
    if exists|k: int|
        0 <= k < txs[tx].parents.len() && cluster_graph::is_ancestor(
            txs,
            #[trigger] txs[tx].parents[k] as int,
            tx,
        ) {
        let k = choose|k: int|
            0 <= k < txs[tx].parents.len() && cluster_graph::is_ancestor(
                txs,
                #[trigger] txs[tx].parents[k] as int,
                tx,
            );
        assert(cluster_graph::is_parent(txs, tx, txs[tx].parents[k] as int));
        cluster_graph::ancestor_by_parent(txs, tx, txs[tx].parents[k] as int, tx);
    }
}

/// A cluster is refused exactly if a parent or a spent transaction is not in it, or its parents run
/// in a circle; and for the first of these reasons that there is.
pub proof fn refused_clusters_are_ill_formed(
    view: ClusterView,
    r: Result<ClusterView, ClusterError>,
)
    requires
        mempool::cluster_outcome(view, r),
    ensures
        r is Ok <==> {
            &&& forall|t: int, k: int|
                0 <= t < view.txs.len() && 0 <= k < view.txs[t].parents.len()
                    ==> #[trigger] view.txs[t].parents[k] < view.txs.len()
            &&& forall|i: int|
                0 <= i < view.spends.len() ==> (#[trigger] view.spends[i]).1 < view.txs.len()
            &&& forall|t: int|
                0 <= t < view.txs.len() ==> !#[trigger] cluster_graph::on_cycle(view.txs, t)
        },
        r matches Ok(cluster) ==> cluster == view,
        r matches Err(ClusterError::ParentOutOfBounds { tx, parent }) ==> tx < view.txs.len()
            && parent >= view.txs.len() && view.txs[tx as int].parents.contains(parent) && forall|
            t: int,
            k: int,
        |
            0 <= t < tx && 0 <= k < view.txs[t].parents.len() ==> #[trigger] view.txs[t].parents[k]
                < view.txs.len(),
        r matches Err(ClusterError::SpendOutOfBounds { candidate, tx }) ==> tx >= view.txs.len()
            && view.spends.contains((candidate, tx)) && forall|t: int, k: int|
            0 <= t < view.txs.len() && 0 <= k < view.txs[t].parents.len()
                ==> #[trigger] view.txs[t].parents[k] < view.txs.len(),
        r matches Err(ClusterError::Cycle { tx }) ==> {
            &&& tx < view.txs.len() && cluster_graph::on_cycle(view.txs, tx as int)
            &&& forall|t: int, k: int|
                0 <= t < view.txs.len() && 0 <= k < view.txs[t].parents.len()
                    ==> #[trigger] view.txs[t].parents[k] < view.txs.len()
            &&& forall|i: int|
                0 <= i < view.spends.len() ==> (#[trigger] view.spends[i]).1 < view.txs.len()
        },
{
    if let Err(ClusterError::ParentOutOfBounds { tx, parent }) = r {
        let k = choose|k: int|
            {
                &&& #[trigger] mempool::bad_parent(view.txs, tx as int, k)
                &&& view.txs[tx as int].parents[k] == parent
                &&& forall|j: int| 0 <= j < k ==> !#[trigger] mempool::bad_parent(
                    view.txs,
                    tx as int,
                    j,
                )
            };
        assert(view.txs[tx as int].parents[k] >= view.txs.len());
        assert forall|t: int, k: int|
            0 <= t < tx && 0 <= k < view.txs[t].parents.len() implies #[trigger] view.txs[t].parents[k]
            < view.txs.len() by {
            assert(!mempool::bad_parent(view.txs, t, k));
        }
    }
}

impl ClusterView {
    /// What a weight lacks is the least that brings its virtual bytes to the feerate, together with
    /// the fee that it paid: it is enough, and no satoshi more than that is asked.
    pub proof fn deficit_is_least(feerate: FeeRate, weight: int, vbytes: int, fee: int, paid: int)
        requires
            0 <= weight,
            fee_laws::fills(vbytes, weight),
            feerate.fee(weight) <= u64::MAX,
            paid >= 0,
        ensures
            paid >= Self::deficit(feerate, weight, fee) <==> (fee + paid) * 1000 >= vbytes * feerate@,
            Self::deficit(feerate, weight, fee) >= 0,
    {
        feerate.fee_wu_at_most_fee(weight);
        feerate.fee_is_least(weight, vbytes, fee + paid);
        fee_laws::saturated_keeps(feerate.fee(weight));
    }

    /// What candidates owe is enough to bring what is left behind to the feerate, and where they
    /// owe anything it is exactly that.
    pub proof fn owed_is_enough_and_no_more(
        self,
        feerate: FeeRate,
        picked: spec_fn(usize) -> bool,
        vbytes: int,
        paid: int,
    )
        requires
            fee_laws::fills(vbytes, self.weight_of(self.left_behind(feerate, picked))),
            feerate.fee(self.weight_of(self.left_behind(feerate, picked))) <= u64::MAX,
            paid >= 0,
        ensures
            ({
                let rest = self.left_behind(feerate, picked);
                let owed = self.owed(feerate, picked);
                &&& paid >= owed <==> (self.fee_of(rest) + paid) * 1000 >= vbytes * feerate@
                &&& self.fee_of(rest) + owed >= feerate.fee(self.weight_of(rest))
                &&& owed > 0 ==> self.fee_of(rest) + owed == feerate.fee(self.weight_of(rest))
                &&& owed >= 0
            }),
    {
        let rest = self.left_behind(feerate, picked);
        let weight = self.weight_of(rest);
        sums::lemma_over_le(rest, rest, |t: int| self.txs[t].weight as int);
        Self::deficit_is_least(feerate, weight, vbytes, self.fee_of(rest), paid);
        feerate.fee_wu_at_most_fee(weight);
        fee_laws::saturated_keeps(feerate.fee(weight));
    }

    /// Candidates pull in what they spend from and all its ancestors, and what is left behind of
    /// that is what is not mined.
    pub proof fn left_behind_is_pulled_in_and_not_mined(
        self,
        feerate: FeeRate,
        picked: spec_fn(usize) -> bool,
        a: int,
    )
        requires
            0 <= a < self.n(),
        ensures
            self.left_behind(feerate, picked)[a] <==> !self.mined_at(feerate)[a] && exists|i: int|
                0 <= i < self.spends.len() && picked((#[trigger] self.spends[i]).0)
                    && cluster_graph::is_ancestor(self.txs, self.spends[i].1 as int, a),
            self.package(picked)[a] <==> exists|i: int|
                0 <= i < self.spends.len() && picked((#[trigger] self.spends[i]).0)
                    && cluster_graph::is_ancestor(self.txs, self.spends[i].1 as int, a),
            self.left_behind(feerate, picked).len() == self.n(),
    {
    }

    /// What is left of a package pays as much per weight as that of any other transaction that is
    /// not mined, and more than that of those before it, if it is the one to be mined next.
    pub proof fn best_package_pays_most(self, mined: Seq<bool>, k: int, t: int)
        requires
            forall|t: int| 0 <= t < self.n() ==> (#[trigger] self.txs[t]).weight > 0,
            mined.len() == self.n(),
            0 <= t < k <= self.n(),
            !mined[t],
        ensures
            self.best_package(mined, k) matches Some(best) && {
                let (x, y) = (self.remaining(best, mined), self.remaining(t, mined));
                &&& 0 <= best < k && !mined[best]
                &&& self.fee_of(x) * self.weight_of(y) >= self.fee_of(y) * self.weight_of(x)
                &&& t < best ==> self.fee_of(x) * self.weight_of(y) > self.fee_of(y)
                    * self.weight_of(x)
            },
        decreases k,
    {
        self.best_package_unmined(mined, k);
        let best = self.best_package(mined, k)->0;
        if k - 1 > 0 {
            self.best_package_unmined(mined, k - 1);
        }
        if t < k - 1 {
            self.best_package_pays_most(mined, k - 1, t);
            let old_best = self.best_package(mined, k - 1)->0;
            if best != old_best {
                let (x, y, z) = (
                    self.remaining(best, mined),
                    self.remaining(old_best, mined),
                    self.remaining(t, mined),
                );
                self.remaining_weighs(best, mined);
                self.remaining_weighs(old_best, mined);
                self.remaining_weighs(t, mined);
                ratios_chain(
                    self.fee_of(x),
                    self.weight_of(x),
                    self.fee_of(y),
                    self.weight_of(y),
                    self.fee_of(z),
                    self.weight_of(z),
                );
            }
        }
    }

    /// A miner goes on exactly while the best package that is left pays the feerate: it is then
    /// mined with all its ancestors, and nothing else is at that time.
    pub proof fn mining_goes_on_while_it_pays(self, mined: Seq<bool>, feerate: FeeRate, best: int)
        requires
            mined.len() == self.n(),
            self.best_package(mined, self.n()) == Some(best),
            feerate.fee_wu(self.weight_of(self.remaining(best, mined))) <= u64::MAX,
        ensures
            ({
                let rest = self.remaining(best, mined);
                let more = self.mined_with(best, mined);
                &&& self.fee_of(rest) * 4000 >= self.weight_of(rest) * feerate@ ==> self.mine_from(
                    mined,
                    feerate,
                ) == self.mine_from(more, feerate)
                &&& self.fee_of(rest) * 4000 < self.weight_of(rest) * feerate@ ==> self.mine_from(
                    mined,
                    feerate,
                ) == mined
                &&& forall|a: int|
                    0 <= a < self.n() ==> (#[trigger] more[a] <==> mined[a]
                        || cluster_graph::is_ancestor(self.txs, best, a))
                &&& forall|a: int|
                    0 <= a < self.n() ==> (#[trigger] rest[a] <==> !mined[a]
                        && cluster_graph::is_ancestor(self.txs, best, a))
            }),
    {
        let rest = self.remaining(best, mined);
        let weight = self.weight_of(rest);
        let vbytes = FeeRate::weight_fills_vbytes(weight);
        sums::lemma_over_le(rest, rest, |t: int| self.txs[t].weight as int);
        feerate.fee_wu_at_most_fee(weight);
        feerate.fee_is_least(weight, vbytes, self.fee_of(rest));
        fee_laws::saturated_keeps(feerate.fee_wu(weight));
    }

    /// Mining starts with nothing, and ends where everything is mined.
    pub proof fn mining_starts_with_nothing(self, feerate: FeeRate, none: Seq<bool>, all: Seq<bool>)
        requires
            none.len() == self.n(),
            bitset::holds_nothing(none),
            all.len() == self.n(),
            forall|t: int| 0 <= t < self.n() ==> #[trigger] all[t],
        ensures
            self.mined_at(feerate) == self.mine_from(none, feerate),
            self.mine_from(all, feerate) == all,
    {
        assert(none =~= Seq::new(self.txs.len(), |t: int| false));
        self.best_package_unmined(all, self.n());
    }

    /// A set of transactions weighs and pays what each of them does.
    pub proof fn transactions_add_up(self, s: Seq<bool>, t: int)
        requires
            s.len() == self.n(),
            0 <= t < self.n(),
            !s[t],
        ensures
            self.weight_of(s.update(t, true)) == self.weight_of(s) + self.txs[t].weight,
            self.fee_of(s.update(t, true)) == self.fee_of(s) + self.txs[t].fee,
            bitset::holds_nothing(s) ==> self.weight_of(s) == 0 && self.fee_of(s) == 0,
    {
        sums::lemma_over_insert(s, |t: int| self.txs[t].weight as int, t);
        sums::lemma_over_insert(s, |t: int| self.txs[t].fee as int, t);
        if bitset::holds_nothing(s) {
            sums::lemma_over_empty(s, |t: int| self.txs[t].weight as int);
            sums::lemma_over_empty(s, |t: int| self.txs[t].fee as int);
        }
    }
}

/// A ratio that is above one that is not below a third is above the third.
proof fn ratios_chain(a: int, b: int, c: int, d: int, e: int, f: int)
    requires
        b > 0,
        d > 0,
        f > 0,
        a * d > c * b,
        c * f >= e * d,
    ensures
        a * f > e * b,
{
    let (x, y, z, u) = (a * d, c * b, c * f, e * d);
    assert(x * f > y * f) by (nonlinear_arith)
        requires
            x > y,
            f > 0,
    ;
    assert(z * b >= u * b) by (nonlinear_arith)
        requires
            z >= u,
            b > 0,
    ;
    assert((a * d) * f == (a * f) * d) by (nonlinear_arith);
    assert((c * b) * f == (c * f) * b) by (nonlinear_arith);
    assert((e * d) * b == (e * b) * d) by (nonlinear_arith);
    let (left, right) = (a * f, e * b);
    if left <= right {
        assert(left * d <= right * d) by (nonlinear_arith)
            requires
                left <= right,
                d > 0,
        ;
    }
}

impl TableView {
    /// What a candidate owes by itself is what it owes together with none.
    pub proof fn one_candidate_owes_what_it_owes(self, c: usize, selected: Seq<bool>)
        requires
            c < selected.len(),
            forall|i: int| 0 <= i < selected.len() ==> (#[trigger] selected[i] <==> i == c),
        ensures
            self.combined(selected) == self.individual(c),
    {
        let (a, b) = (cluster_graph::among(selected), cluster_graph::only(c));
        assert forall|x: usize| #[trigger] a(x) == b(x) by {
            if x < selected.len() {
                assert(selected[x as int] <==> x == c);
            }
        }
        assert forall|u: int| 0 <= u < self.units.len() implies self.union(a)[u] == self.union(b)[u] by {
            if self.union(a)[u] {
                let k = choose|k: int|
                    0 <= k < self.entries.len() && a((#[trigger] self.entries[k]).0)
                        && self.entries[k].1[u];
                assert(b(self.entries[k].0));
            }
            if self.union(b)[u] {
                let k = choose|k: int|
                    0 <= k < self.entries.len() && b((#[trigger] self.entries[k]).0)
                        && self.entries[k].1[u];
                assert(a(self.entries[k].0));
            }
        }
        assert(self.union(a) =~= self.union(b));
    }

    /// What candidates owe together is the least that brings all that any of them drags in to the
    /// feerate, each counted once.
    pub proof fn combined_is_least(
        self,
        selected: Seq<bool>,
        all: Seq<bool>,
        vbytes: int,
        paid: int,
    )
        requires
            all.len() == self.units.len(),
            forall|u: int|
                0 <= u < all.len() ==> (#[trigger] all[u] <==> exists|k: int|
                    0 <= k < self.entries.len() && (#[trigger] self.entries[k]).0 < selected.len()
                        && selected[self.entries[k].0 as int] && self.entries[k].1[u]),
            fee_laws::fills(vbytes, sums::over(all, |u: int| self.units[u].0 as int)),
            self.feerate.fee(sums::over(all, |u: int| self.units[u].0 as int)) <= u64::MAX,
            paid >= 0,
        ensures
            paid >= self.combined(selected) <==> (sums::over(all, |u: int| self.units[u].1 as int)
                + paid) * 1000 >= vbytes * self.feerate@,
    {
        let picked = cluster_graph::among(selected);
        assert forall|u: int| 0 <= u < all.len() implies self.union(picked)[u] == all[u] by {
            if self.union(picked)[u] {
                let k = choose|k: int|
                    0 <= k < self.entries.len() && picked((#[trigger] self.entries[k]).0)
                        && self.entries[k].1[u];
                assert(self.entries[k].0 < selected.len() && selected[self.entries[k].0 as int]);
            }
            if all[u] {
                let k = choose|k: int|
                    0 <= k < self.entries.len() && (#[trigger] self.entries[k]).0 < selected.len()
                        && selected[self.entries[k].0 as int] && self.entries[k].1[u];
                assert(picked(self.entries[k].0));
            }
        }
        assert(self.union(picked) =~= all);
        sums::lemma_over_le(all, all, |u: int| self.units[u].0 as int);
        ClusterView::deficit_is_least(
            self.feerate,
            self.weight_of(all),
            vbytes,
            self.fee_of(all),
            paid,
        );
    }
}

/// Whether `rest` holds the transactions that a candidate of which `picked` holds spends from or
/// descends from, and that are not mined.
pub open spec fn is_left_behind(
    cluster: ClusterView,
    mined: Seq<bool>,
    picked: spec_fn(usize) -> bool,
    rest: Seq<bool>,
) -> bool {
    &&& rest.len() == cluster.txs.len()
    &&& forall|a: int|
        0 <= a < rest.len() ==> (#[trigger] rest[a] <==> !mined[a] && exists|i: int|
            0 <= i < cluster.spends.len() && picked((#[trigger] cluster.spends[i]).0)
                && cluster_graph::is_ancestor(cluster.txs, cluster.spends[i].1 as int, a))
}

/// What candidates owe together is the least that brings what a miner leaves behind of their
/// packages to the feerate: it suffices, and where anything is owed it is exactly what is lacking.
pub proof fn combined_bumps_suffice(
    cluster: &Cluster,
    feerate: FeeRate,
    mined: Bitset,
    table: BumpTable,
    selected: &Bitset,
    bump: u64,
    rest: Seq<bool>,
    vbytes: int,
    paid: int,
)
    requires
        cluster.inv(),
        call_ensures(Cluster::mine, (cluster, feerate), mined),
        call_ensures(BumpTable::from_cluster, (cluster, feerate), table),
        call_ensures(BumpTable::combined, (&table, selected), bump),
        is_left_behind(
            cluster@,
            mined@,
            |x: usize| x < selected@.len() && selected@[x as int],
            rest,
        ),
        fee_laws::fills(vbytes, sums::over(rest, |t: int| cluster@.txs[t].weight as int)),
        vbytes * feerate@ <= 1000 * u64::MAX,
        paid >= 0,
    ensures
        paid >= bump <==> (sums::over(rest, |t: int| cluster@.txs[t].fee as int) + paid) * 1000
            >= vbytes * feerate@,
{
    let picked = cluster_graph::among(selected@);
    packages_owe(cluster@, feerate, picked, rest, vbytes, paid);
    assert(table@.owed(picked) == cluster@.owed(feerate, picked));
}

/// What a candidate owes by itself is the least that brings what a miner leaves behind of its
/// package to the feerate.
pub proof fn individual_bumps_suffice(
    cluster: &Cluster,
    feerate: FeeRate,
    mined: Bitset,
    table: BumpTable,
    candidate: usize,
    bump: u64,
    rest: Seq<bool>,
    vbytes: int,
    paid: int,
)
    requires
        cluster.inv(),
        call_ensures(Cluster::mine, (cluster, feerate), mined),
        call_ensures(BumpTable::from_cluster, (cluster, feerate), table),
        call_ensures(BumpTable::individual, (&table, candidate), bump),
        is_left_behind(cluster@, mined@, |x: usize| x == candidate, rest),
        fee_laws::fills(vbytes, sums::over(rest, |t: int| cluster@.txs[t].weight as int)),
        vbytes * feerate@ <= 1000 * u64::MAX,
        paid >= 0,
    ensures
        paid >= bump <==> (sums::over(rest, |t: int| cluster@.txs[t].fee as int) + paid) * 1000
            >= vbytes * feerate@,
{
    let picked = cluster_graph::only(candidate);
    packages_owe(cluster@, feerate, picked, rest, vbytes, paid);
    assert(table@.owed(picked) == cluster@.owed(feerate, picked));
}

proof fn packages_owe(
    cluster: ClusterView,
    feerate: FeeRate,
    picked: spec_fn(usize) -> bool,
    rest: Seq<bool>,
    vbytes: int,
    paid: int,
)
    requires
        is_left_behind(cluster, cluster.mined_at(feerate), picked, rest),
        fee_laws::fills(vbytes, sums::over(rest, |t: int| cluster.txs[t].weight as int)),
        vbytes * feerate@ <= 1000 * u64::MAX,
        paid >= 0,
    ensures
        paid >= cluster.owed(feerate, picked) <==> (sums::over(
            rest,
            |t: int| cluster.txs[t].fee as int,
        ) + paid) * 1000 >= vbytes * feerate@,
{
    assert forall|a: int| 0 <= a < cluster.n() implies #[trigger] cluster.left_behind(
        feerate,
        picked,
    )[a] == rest[a] by {
        cluster.left_behind_is_pulled_in_and_not_mined(feerate, picked, a);
    }
    assert(cluster.left_behind(feerate, picked) =~= rest);
    feerate.fee_is_least(cluster.weight_of(rest), vbytes, u64::MAX as int);
    cluster.owed_is_enough_and_no_more(feerate, picked, vbytes, paid);
}

/// A table knows the candidates that spend from the cluster, ascending, and the feerate that it was
/// made for, and lists what each owes by itself.
pub proof fn tables_know_their_candidates(
    cluster: &Cluster,
    feerate: FeeRate,
    table: BumpTable,
    rate: FeeRate,
    list: Vec<usize>,
    bumps: Vec<(usize, u64)>,
    last: Option<usize>,
    c: usize,
    bump: u64,
)
    requires
        cluster.inv(),
        call_ensures(BumpTable::from_cluster, (cluster, feerate), table),
        call_ensures(BumpTable::feerate, (&table,), rate),
        call_ensures(BumpTable::candidates, (&table,), list),
        call_ensures(BumpTable::individual_bumps, (&table,), bumps),
        call_ensures(BumpTable::max_candidate_index, (&table,), last),
        call_ensures(BumpTable::individual, (&table, c), bump),
    ensures
        rate == feerate,
        list@.contains(c) <==> exists|i: int|
            0 <= i < cluster@.spends.len() && (#[trigger] cluster@.spends[i]).0 == c,
        forall|i: int, j: int|
            0 <= i < j < list@.len() ==> #[trigger] list@[i] < #[trigger] list@[j],
        bumps@.len() == list@.len(),
        forall|k: int| 0 <= k < bumps@.len() ==> (#[trigger] bumps@[k]).0 == list@[k],
        forall|k: int|
            0 <= k < bumps@.len() && (#[trigger] bumps@[k]).0 == c ==> bumps@[k].1 == bump,
        last is Some <==> list@.len() > 0,
        last matches Some(last) ==> last == list@[list@.len() - 1],
{
    let view = table@;
    let entries = Seq::new(view.entries.len(), |k: int| view.entries[k].0);
    assert(list@ == entries);
    assert(cluster@.lists_candidates(list@));
    if list@.contains(c) {
        let k = choose|k: int| 0 <= k < list@.len() && list@[k] == c;
        assert(cluster@.is_spent_by(list@[k]));
    }
    if exists|i: int| 0 <= i < cluster@.spends.len() && (#[trigger] cluster@.spends[i]).0 == c {
        assert(cluster@.is_spent_by(c));
    }
}

/// A cluster is made of exactly what it is given, if no parent and no spent transaction is missing
/// and parents do not run in a circle; its candidates are those that spend from it, and the package
/// of one is what it spends from with all ancestors.
pub proof fn clusters_hold_what_they_are_given(
    txs: Vec<MempoolTx>,
    spends: Vec<(usize, usize)>,
    r: Result<Cluster, ClusterError>,
    list: Vec<usize>,
    c: usize,
    package: Bitset,
    a: int,
)
    requires
        call_ensures(Cluster::new, (txs, spends), r),
        r matches Ok(cluster) ==> {
            &&& call_ensures(Cluster::candidates, (&cluster,), list)
            &&& call_ensures(Cluster::package_of, (&cluster, c), package)
        },
        0 <= a < txs@.len(),
    ensures
        ({
            let graph = Seq::new(
                txs@.len(),
                |i: int|
                    TxView { weight: txs@[i].weight, fee: txs@[i].fee, parents: txs@[i].parents@ },
            );
            &&& r is Ok <==> {
                &&& forall|t: int, k: int|
                    0 <= t < graph.len() && 0 <= k < graph[t].parents.len()
                        ==> #[trigger] graph[t].parents[k] < graph.len()
                &&& forall|i: int|
                    0 <= i < spends@.len() ==> (#[trigger] spends@[i]).1 < graph.len()
                &&& forall|t: int|
                    0 <= t < graph.len() ==> !#[trigger] cluster_graph::on_cycle(graph, t)
            }
            &&& r matches Ok(cluster) ==> {
                &&& cluster@.txs == graph
                &&& cluster@.spends == spends@
                &&& list@.contains(c) <==> exists|i: int|
                    0 <= i < spends@.len() && (#[trigger] spends@[i]).0 == c
                &&& forall|i: int, j: int|
                    0 <= i < j < list@.len() ==> #[trigger] list@[i] < #[trigger] list@[j]
                &&& package@[a] <==> exists|i: int|
                    0 <= i < spends@.len() && (#[trigger] spends@[i]).0 == c
                        && cluster_graph::is_ancestor(graph, spends@[i].1 as int, a)
            }
        }),
{
    let graph = Seq::new(
        txs@.len(),
        |i: int| TxView { weight: txs@[i].weight, fee: txs@[i].fee, parents: txs@[i].parents@ },
    );
    assert(mempool::views(txs@) =~= graph);
    let view = ClusterView { txs: graph, spends: spends@ };
    match r {
        Ok(cluster) => {
            refused_clusters_are_ill_formed(view, Ok(cluster@));
            if list@.contains(c) {
                let k = choose|k: int| 0 <= k < list@.len() && list@[k] == c;
                assert(cluster@.is_spent_by(list@[k]));
            }
            if exists|i: int| 0 <= i < spends@.len() && (#[trigger] spends@[i]).0 == c {
                let i = choose|i: int| 0 <= i < spends@.len() && (#[trigger] spends@[i]).0 == c;
                assert(cluster@.spends[i].0 == c);
                assert(cluster@.is_spent_by(c));
            }
            let picked = cluster_graph::only(c);
            if package@[a] {
                let i = choose|i: int|
                    0 <= i < spends@.len() && picked((#[trigger] view.spends[i]).0)
                        && cluster_graph::is_ancestor(graph, spends@[i].1 as int, a);
                assert(spends@[i].0 == c);
            }
            if exists|i: int|
                0 <= i < spends@.len() && (#[trigger] spends@[i]).0 == c
                    && cluster_graph::is_ancestor(graph, spends@[i].1 as int, a) {
                let i = choose|i: int|
                    0 <= i < spends@.len() && (#[trigger] spends@[i]).0 == c
                        && cluster_graph::is_ancestor(graph, spends@[i].1 as int, a);
                assert(picked(view.spends[i].0));
            }
        },
        Err(e) => {
            refused_clusters_are_ill_formed(view, Err(e));
        },
    }
}

/// A block holds with each transaction its parents, and pays the feerate as a whole. What is left
/// of the package of any transaction outside it pays less than that.
pub proof fn blocks_pay_and_leave_what_does_not(
    cluster: &Cluster,
    feerate: FeeRate,
    mined: Bitset,
    t: int,
    rest: Seq<bool>,
)
    requires
        cluster.inv(),
        call_ensures(Cluster::mine, (cluster, feerate), mined),
        0 <= t < cluster@.n(),
        rest.len() == cluster@.n(),
        forall|a: int|
            0 <= a < rest.len() ==> (#[trigger] rest[a] <==> !mined@[a]
                && cluster_graph::is_ancestor(cluster@.txs, t, a)),
        forall|t: int| 0 <= t < cluster@.n() ==> (#[trigger] cluster@.txs[t]).weight > 0,
        cluster@.fee_of(cluster@.everything()) < u64::MAX,
    ensures
        mined@.len() == cluster@.n(),
        mined@[t] ==> forall|k: int|
            0 <= k < cluster@.txs[t].parents.len()
                ==> mined@[#[trigger] cluster@.txs[t].parents[k] as int],
        4000 * sums::over(mined@, |a: int| cluster@.txs[a].fee as int) >= sums::over(
            mined@,
            |a: int| cluster@.txs[a].weight as int,
        ) * feerate@,
        !mined@[t] ==> 4000 * sums::over(rest, |a: int| cluster@.txs[a].fee as int) < sums::over(
            rest,
            |a: int| cluster@.txs[a].weight as int,
        ) * feerate@,
{
    let view = cluster@;
    cluster.inv_wf();
    view.mined_has_length(feerate);
    view.mined_with_ancestors(feerate);
    view.mined_pays_its_way(feerate);
    let weight = view.weight_of(mined@);
    let vbytes = FeeRate::weight_fills_vbytes(weight);
    feerate.fee_is_least(weight, vbytes, view.fee_of(mined@));
    if mined@[t] {
        assert forall|k: int| 0 <= k < view.txs[t].parents.len() implies mined@[
        #[trigger] view.txs[t].parents[k] as int] by {
            let p = view.txs[t].parents[k] as int;
            ancestors_are_parents_of_ancestors(view.txs, t, mined@);
            assert(cluster_graph::is_ancestor(view.txs, t, p));
        }
    } else {
        view.left_behind_pays_too_little(feerate, t);
        assert(view.remaining(t, mined@) =~= rest);
    }
}

} // verus!
