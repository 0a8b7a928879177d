//! What holds of every cluster.
use crate::bitset;
use crate::cluster_graph;
use crate::cluster_graph::{ClusterView, TxView};
use crate::feerate;
use crate::feerate::FeeRate;
use crate::sums;
use vstd::prelude::*;

verus! {

/// Whether a set holds the ancestors of all it holds.
pub open spec fn is_closed(txs: Seq<TxView>, set: Seq<bool>) -> bool {
    forall|t: int, a: int|
        0 <= t < txs.len() && set[t] && #[trigger] cluster_graph::is_ancestor(txs, t, a) ==> set[a]
}

impl ClusterView {
    /// A miner includes a transaction only together with its ancestors.
    pub proof fn mined_with_ancestors(self, feerate: FeeRate)
        ensures
            is_closed(self.txs, self.mined_at(feerate)),
    {
        self.mine_from_keeps_closed(Seq::new(self.txs.len(), |t: int| false), feerate);
    }

    proof fn mine_from_keeps_closed(self, mined: Seq<bool>, feerate: FeeRate)
        requires
            mined.len() == self.n(),
            is_closed(self.txs, mined),
        ensures
            is_closed(self.txs, self.mine_from(mined, feerate)),
        decreases self.n() - bitset::size(mined),
    {
        if let Some(best) = self.best_package(mined, self.n()) {
            self.best_package_unmined(mined, self.n());
            self.mining_progresses(best, mined);
            let more = self.mined_with(best, mined);
            assert forall|t: int, a: int|
                0 <= t < self.txs.len() && more[t] && #[trigger] cluster_graph::is_ancestor(
                    self.txs,
                    t,
                    a,
                ) implies more[a] by {
                cluster_graph::ancestor_cases(self.txs, t, a);
                if !mined[t] {
                    cluster_graph::ancestor_transitive(self.txs, best, t, a);
                }
            }
            self.mine_from_keeps_closed(more, feerate);
        }
    }

    /// Whether every transaction weighs something.
    pub open spec fn weighs(self) -> bool {
        forall|t: int| 0 <= t < self.n() ==> (#[trigger] self.txs[t]).weight > 0
    }

    /// What is left of the package of a transaction that has not been mined weighs something.
    pub proof fn remaining_weighs(self, t: int, mined: Seq<bool>)
        requires
            self.weighs(),
            0 <= t < self.n(),
            mined.len() == self.n(),
            !mined[t],
        ensures
            self.weight_of(self.remaining(t, mined)) > 0,
    {
        cluster_graph::ancestor_reflexive(self.txs, t);
        let rest = self.remaining(t, mined);
        let f = |x: int| if rest[x] { (|t: int| self.txs[t].weight as int)(x) } else { 0 };
        sums::lemma_sum_term(self.n(), f, t);
        assert(f(t) > 0);
    }

    /// No transaction that has not been mined has a remaining package that pays more than the best.
    proof fn best_package_is_best(self, mined: Seq<bool>, k: int, t: int)
        requires
            self.weighs(),
            0 <= t < k <= self.n(),
            mined.len() == self.n(),
            !mined[t],
        ensures
            self.best_package(mined, k) matches Some(best) && !self.pays_more(t, best, mined),
        decreases k,
    {
        self.best_package_unmined(mined, k);
        self.best_package_unmined(mined, k - 1);
        if t < k - 1 {
            self.best_package_is_best(mined, k - 1, t);
            let before = self.best_package(mined, k - 1)->0;
            let last = k - 1;
            if !mined[last] && self.pays_more(last, before, mined) {
                self.remaining_weighs(t, mined);
                self.remaining_weighs(before, mined);
                self.remaining_weighs(last, mined);
                let (f, w) = (
                    self.fee_of(self.remaining(t, mined)),
                    self.weight_of(self.remaining(t, mined)),
                );
                let (g, x) = (
                    self.fee_of(self.remaining(before, mined)),
                    self.weight_of(self.remaining(before, mined)),
                );
                let (h, y) = (
                    self.fee_of(self.remaining(last, mined)),
                    self.weight_of(self.remaining(last, mined)),
                );
                assert(f * y <= h * w) by (nonlinear_arith)
                    requires
                        f * x <= g * w,
                        h * x > g * y,
                        0 < w,
                        0 < x,
                        0 < y,
                ;
            }
        }
    }

    /// What is left of the package of a transaction that a miner leaves behind pays less than the
    /// miner asks for.
    pub proof fn left_behind_pays_too_little(self, feerate: FeeRate, t: int)
        requires
            self.weighs(),
            0 <= t < self.n(),
            !self.mined_at(feerate)[t],
        ensures
            ({
                let rest = self.remaining(t, self.mined_at(feerate));
                self.fee_of(rest) * 4000 < self.weight_of(rest) * feerate@
            }),
    {
        self.mine_from_leaves(Seq::new(self.txs.len(), |t: int| false), feerate, t);
    }

    proof fn mine_from_leaves(self, mined: Seq<bool>, feerate: FeeRate, t: int)
        requires
            self.weighs(),
            mined.len() == self.n(),
            0 <= t < self.n(),
            !self.mine_from(mined, feerate)[t],
        ensures
            ({
                let rest = self.remaining(t, self.mine_from(mined, feerate));
                self.fee_of(rest) * 4000 < self.weight_of(rest) * feerate@
            }),
        decreases self.n() - bitset::size(mined),
    {
        self.best_package_unmined(mined, self.n());
        match self.best_package(mined, self.n()) {
            None => {
                assert(mined[t]);
            },
            Some(best) => {
                let rest = self.remaining(best, mined);
                if self.fee_of(rest) < feerate::saturated(feerate.fee_wu(self.weight_of(rest))) {
                    self.best_package_is_best(mined, self.n(), t);
                    self.remaining_weighs(best, mined);
                    self.remaining_weighs(t, mined);
                    let own = self.remaining(t, mined);
                    let (f, w) = (self.fee_of(own), self.weight_of(own));
                    let (g, x) = (self.fee_of(rest), self.weight_of(rest));
                    let rate = feerate@ as int;
                    assert(g * 4000 < x * rate);
                    assert(f * 4000 < w * rate) by (nonlinear_arith)
                        requires
                            f * x <= g * w,
                            g * 4000 < x * rate,
                            0 < w,
                            0 < x,
                    ;
                } else {
                    self.mining_progresses(best, mined);
                    self.mine_from_leaves(self.mined_with(best, mined), feerate, t);
                }
            },
        }
    }

    /// What a miner includes pays its own way as a whole: at least the feerate that the miner asks
    /// for. That takes that the fee at that rate on all transactions can be represented, or that
    /// they pay less than the highest fee that can.
    pub proof fn mined_pays_its_way(self, feerate: FeeRate)
        requires
            feerate.fee_wu(self.weight_of(self.everything())) <= u64::MAX || self.fee_of(
                self.everything(),
            ) < u64::MAX,
        ensures
            self.fee_of(self.mined_at(feerate)) >= feerate.fee_wu(
                self.weight_of(self.mined_at(feerate)),
            ),
    {
        let none = Seq::new(self.txs.len(), |t: int| false);
        sums::lemma_over_empty(none, |t: int| self.txs[t].weight as int);
        sums::lemma_over_empty(none, |t: int| self.txs[t].fee as int);
        assert(0 * feerate@ == 0) by (nonlinear_arith);
        self.mine_from_pays(none, feerate);
        let mined = self.mined_at(feerate);
        feerate.fee_is_exact(self.weight_of(mined), self.fee_of(mined));
    }

    proof fn mine_from_pays(self, mined: Seq<bool>, feerate: FeeRate)
        requires
            mined.len() == self.n(),
            feerate.fee_wu(self.weight_of(self.everything())) <= u64::MAX || self.fee_of(
                self.everything(),
            ) < u64::MAX,
            self.fee_of(mined) * 4000 >= self.weight_of(mined) * feerate@,
        ensures
            ({
                let all = self.mine_from(mined, feerate);
                self.fee_of(all) * 4000 >= self.weight_of(all) * feerate@
            }),
        decreases self.n() - bitset::size(mined),
    {
        if let Some(best) = self.best_package(mined, self.n()) {
            self.best_package_unmined(mined, self.n());
            self.mining_progresses(best, mined);
            let rest = self.remaining(best, mined);
            let more = self.mined_with(best, mined);
            if self.fee_of(rest) >= feerate::saturated(feerate.fee_wu(self.weight_of(rest))) {
                sums::lemma_over_split(more, mined, rest, |t: int| self.txs[t].weight as int);
                sums::lemma_over_split(more, mined, rest, |t: int| self.txs[t].fee as int);
                self.sums_bounded(rest);
                feerate.fee_monotone(self.weight_of(rest), self.weight_of(self.everything()));
                feerate.fee_is_exact(self.weight_of(rest), self.fee_of(rest));
                let (w, x, rate) = (self.weight_of(mined), self.weight_of(rest), feerate@ as int);
                assert((w + x) * rate == w * rate + x * rate) by (nonlinear_arith);
                self.mine_from_pays(more, feerate);
            }
        }
    }

    /// What candidates owe depends on nothing but which of those that spend from the cluster are
    /// among them.
    pub proof fn same_candidates_owe_the_same(
        self,
        feerate: FeeRate,
        picked: spec_fn(usize) -> bool,
        other: spec_fn(usize) -> bool,
    )
        requires
            forall|i: int|
                0 <= i < self.spends.len() ==> picked((#[trigger] self.spends[i]).0) == other(
                    self.spends[i].0,
                ),
        ensures
            self.owed(feerate, picked) == self.owed(feerate, other),
    {
        assert forall|a: int| 0 <= a < self.n() implies self.package(picked)[a] == self.package(
            other,
        )[a] by {
            if self.package(picked)[a] {
                let i = choose|i: int|
                    0 <= i < self.spends.len() && picked((#[trigger] self.spends[i]).0)
                        && cluster_graph::is_ancestor(self.txs, self.spends[i].1 as int, a);
                assert(other(self.spends[i].0));
            }
            if self.package(other)[a] {
                let i = choose|i: int|
                    0 <= i < self.spends.len() && other((#[trigger] self.spends[i]).0)
                        && cluster_graph::is_ancestor(self.txs, self.spends[i].1 as int, a);
                assert(picked(self.spends[i].0));
            }
        }
        assert(self.left_behind(feerate, picked) =~= self.left_behind(feerate, other));
    }

    /// Candidates whose packages a miner includes anyway owe nothing; neither do none at all.
    pub proof fn mined_packages_owe_nothing(self, feerate: FeeRate, picked: spec_fn(usize) -> bool)
        requires
            forall|a: int|
                0 <= a < self.n() && #[trigger] self.package(picked)[a] ==> self.mined_at(feerate)[a],
        ensures
            self.owed(feerate, picked) == 0,
    {
        let rest = self.left_behind(feerate, picked);
        sums::lemma_over_empty(rest, |t: int| self.txs[t].weight as int);
        sums::lemma_over_empty(rest, |t: int| self.txs[t].fee as int);
        feerate.fee_wu_at_most_fee(0);
    }
}

/// Holds of the candidates in a list.
pub open spec fn listed(list: Seq<usize>) -> spec_fn(usize) -> bool {
    |x: usize| list.contains(x)
}

/// For each index, whether it is in both sets.
pub open spec fn shared(a: Seq<bool>, b: Seq<bool>) -> Seq<bool> {
    Seq::new(a.len(), |i: int| a[i] && b[i])
}

/// What two sets lack together is at most what each of them lacks, where what they share pays no
/// more than the feerate asks of its whole vbytes.
proof fn sharing_saves(
    feerate: FeeRate,
    wa: int,
    fa: int,
    wb: int,
    fb: int,
    wi: int,
    fi: int,
)
    requires
        0 <= wi <= wb,
        wi <= wa,
        feerate.fee(wa + wb - wi) <= u64::MAX,
        fi * 1000 <= (wi / 4) * feerate@,
    ensures
        ClusterView::deficit(feerate, wa + wb - wi, fa + fb - fi) <= ClusterView::deficit(
            feerate,
            wa,
            fa,
        ) + ClusterView::deficit(feerate, wb, fb),
{
    let rate = feerate@ as int;
    let (v, u, whole) = (feerate::ceil(wb, 4), feerate::ceil(wb - wi, 4), wi / 4);
    assert(v * rate >= u * rate + whole * rate) by (nonlinear_arith)
        requires
            v >= u + whole,
            0 <= rate,
    ;
    assert(feerate.fee(wb) >= feerate.fee(wb - wi) + fi);
    feerate.fee_of_sum(wa, wb - wi);
    feerate.fee_monotone(wa, wa + wb - wi);
    feerate.fee_monotone(wb, wa + wb - wi);
    feerate.fee_wu_at_most_fee(wa);
    feerate.fee_wu_at_most_fee(wb);
    feerate.fee_wu_at_most_fee(wa + wb - wi);
}

impl ClusterView {
    /// Whether some transactions pay more than `feerate` asks of their whole vbytes.
    pub open spec fn overpays(self, feerate: FeeRate, set: Seq<bool>) -> bool {
        self.fee_of(set) * 1000 > (self.weight_of(set) / 4) * feerate@
    }

    /// The transactions left behind that candidate `k` of a list shares with those before it.
    pub open spec fn overlap(self, feerate: FeeRate, list: Seq<usize>, k: int) -> Seq<bool> {
        shared(
            self.left_behind(feerate, listed(list.take(k))),
            self.left_behind(feerate, cluster_graph::only(list[k])),
        )
    }

    /// The sum of what each candidate of a list owes on its own.
    pub open spec fn local_sum(self, feerate: FeeRate, list: Seq<usize>) -> int {
        sums::sum(list.len() as int, |k: int| self.owed(feerate, cluster_graph::only(list[k])))
    }

    /// What one more candidate adds to what is left behind.
    proof fn left_behind_grows(self, feerate: FeeRate, list: Seq<usize>)
        requires
            list.len() > 0,
        ensures
            ({
                let a = self.left_behind(feerate, listed(list.drop_last()));
                let b = self.left_behind(feerate, cluster_graph::only(list.last()));
                let all = self.left_behind(feerate, listed(list));
                &&& forall|t: int| 0 <= t < self.n() ==> #[trigger] all[t] == (a[t] || b[t])
                &&& self.weight_of(all) == self.weight_of(a) + self.weight_of(b) - self.weight_of(
                    shared(a, b),
                )
                &&& self.fee_of(all) == self.fee_of(a) + self.fee_of(b) - self.fee_of(shared(a, b))
            }),
    {
        let less = list.drop_last();
        let (a, b) = (
            self.left_behind(feerate, listed(less)),
            self.left_behind(feerate, cluster_graph::only(list.last())),
        );
        let all = self.left_behind(feerate, listed(list));
        assert forall|t: int| 0 <= t < self.n() implies #[trigger] all[t] == (a[t] || b[t]) by {
            let (before, last) = (listed(less), cluster_graph::only(list.last()));
            if self.package(listed(list))[t] {
                let i = choose|i: int|
                    0 <= i < self.spends.len() && list.contains((#[trigger] self.spends[i]).0)
                        && cluster_graph::is_ancestor(self.txs, self.spends[i].1 as int, t);
                let c = self.spends[i].0;
                let j = choose|j: int| 0 <= j < list.len() && list[j] == c;
                if j < less.len() {
                    assert(less[j] == c);
                    assert(before(self.spends[i].0));
                } else {
                    assert(last(self.spends[i].0));
                }
            }
            if self.package(before)[t] {
                let i = choose|i: int|
                    0 <= i < self.spends.len() && less.contains((#[trigger] self.spends[i]).0)
                        && cluster_graph::is_ancestor(self.txs, self.spends[i].1 as int, t);
                let j = choose|j: int| 0 <= j < less.len() && less[j] == self.spends[i].0;
                assert(list[j] == self.spends[i].0);
                assert(listed(list)(self.spends[i].0));
            }
            if self.package(last)[t] {
                let i = choose|i: int|
                    0 <= i < self.spends.len() && (#[trigger] self.spends[i]).0 == list.last()
                        && cluster_graph::is_ancestor(self.txs, self.spends[i].1 as int, t);
                assert(list[list.len() - 1] == self.spends[i].0);
                assert(listed(list)(self.spends[i].0));
            }
        }
        let own = Seq::new(self.txs.len(), |t: int| b[t] && !a[t]);
        let weight_at = |t: int| self.txs[t].weight as int;
        let fee_at = |t: int| self.txs[t].fee as int;
        sums::lemma_over_split(all, a, own, weight_at);
        sums::lemma_over_split(all, a, own, fee_at);
        sums::lemma_over_split(b, shared(a, b), own, weight_at);
        sums::lemma_over_split(b, shared(a, b), own, fee_at);
    }

    /// What candidates owe together is never more than the sum of what each owes on its own, where
    /// nothing that one of them shares with those before it overpays.
    pub proof fn local_sum_covers(self, feerate: FeeRate, list: Seq<usize>)
        requires
            feerate.fee(self.weight_of(self.everything())) <= u64::MAX,
            forall|k: int|
                0 <= k < list.len() ==> !self.overpays(
                    feerate,
                    #[trigger] self.overlap(feerate, list, k),
                ),
        ensures
            self.owed(feerate, listed(list)) <= self.local_sum(feerate, list),
        decreases list.len(),
    {
        let all = self.left_behind(feerate, listed(list));
        if list.len() == 0 {
            assert forall|a: int| 0 <= a < self.n() implies !#[trigger] self.package(listed(list))[a] by {}
            self.mined_packages_owe_nothing(feerate, listed(list));
        } else {
            let less = list.drop_last();
            let last = list.len() - 1;
            assert forall|k: int| 0 <= k < less.len() implies !self.overpays(
                feerate,
                #[trigger] self.overlap(feerate, less, k),
            ) by {
                assert(less.take(k) =~= list.take(k));
                assert(self.overlap(feerate, list, k) == self.overlap(feerate, less, k));
            }
            self.local_sum_covers(feerate, less);
            assert(list.take(last) =~= less);
            let (a, b) = (
                self.left_behind(feerate, listed(less)),
                self.left_behind(feerate, cluster_graph::only(list.last())),
            );
            self.left_behind_grows(feerate, list);
            assert(self.overlap(feerate, list, last) == shared(a, b));
            self.sums_bounded(a);
            self.sums_bounded(all);
            sums::lemma_over_le(shared(a, b), a, |t: int| self.txs[t].weight as int);
            sums::lemma_over_le(shared(a, b), b, |t: int| self.txs[t].weight as int);
            feerate.fee_monotone(self.weight_of(all), self.weight_of(self.everything()));
            sharing_saves(
                feerate,
                self.weight_of(a),
                self.fee_of(a),
                self.weight_of(b),
                self.fee_of(b),
                self.weight_of(shared(a, b)),
                self.fee_of(shared(a, b)),
            );
            sums::lemma_sum_ext(
                last,
                |k: int| self.owed(feerate, cluster_graph::only(list[k])),
                |k: int| self.owed(feerate, cluster_graph::only(less[k])),
            );
        }
    }
}

/// In a graph where no transaction has two parents, ancestors of one transaction are ancestors of
/// each other.
proof fn ancestors_form_a_chain(txs: Seq<TxView>, path: Seq<int>, b: int)
    requires
        forall|t: int| 0 <= t < txs.len() ==> (#[trigger] txs[t]).parents.len() <= 1,
        cluster_graph::is_path(txs, path),
        cluster_graph::is_ancestor(txs, path[0], b),
    ensures
        cluster_graph::is_ancestor(txs, path.last(), b) || cluster_graph::is_ancestor(
            txs,
            b,
            path.last(),
        ),
    decreases path.len(),
{
    if path.len() >= 2 && b != path[0] {
        let parent = cluster_graph::ancestor_cases(txs, path[0], b);
        assert(cluster_graph::is_parent(txs, path[0], path[1]));
        assert(0 <= path[0] < txs.len());
        assert(parent == path[1]);
        cluster_graph::path_tail(txs, path);
        ancestors_form_a_chain(txs, path.skip(1), b);
    }
}

impl ClusterView {
    /// Whether no transaction has two parents and no candidate spends from two transactions.
    pub open spec fn is_forest(self) -> bool {
        &&& forall|t: int| 0 <= t < self.n() ==> (#[trigger] self.txs[t]).parents.len() <= 1
        &&& forall|i: int, j: int|
            0 <= i < self.spends.len() && 0 <= j < self.spends.len() && (
            #[trigger] self.spends[i]).0 == (#[trigger] self.spends[j]).0 ==> self.spends[i].1
                == self.spends[j].1
    }

    /// Whether every transaction takes up whole vbytes, and at least one.
    pub open spec fn fills_vbytes(self) -> bool {
        forall|t: int| 0 <= t < self.n() ==> (#[trigger] self.txs[t]).weight > 0 && self.txs[t].weight
            % 4 == 0
    }

    /// A transaction of which all transactions of a set below `k` are ancestors, where all of them
    /// are ancestors of one.
    proof fn lowest_of_chain(self, tx: int, set: Seq<bool>, k: int) -> (x: int)
        requires
            self.is_forest(),
            set.len() == self.n(),
            0 <= k <= self.n(),
            forall|t: int|
                0 <= t < self.n() && #[trigger] set[t] ==> cluster_graph::is_ancestor(
                    self.txs,
                    tx,
                    t,
                ),
            exists|t: int| 0 <= t < k && #[trigger] set[t],
        ensures
            0 <= x < k,
            set[x],
            forall|t: int|
                0 <= t < k && #[trigger] set[t] ==> cluster_graph::is_ancestor(self.txs, x, t),
        decreases k,
    {
        let last = k - 1;
        cluster_graph::ancestor_reflexive(self.txs, last);
        if exists|t: int| 0 <= t < last && #[trigger] set[t] {
            let x = self.lowest_of_chain(tx, set, last);
            if set[last] {
                let path = choose|path: Seq<int>| #[trigger]
                    cluster_graph::is_path(self.txs, path) && path[0] == tx && path.last() == x;
                ancestors_form_a_chain(self.txs, path, last);
                if cluster_graph::is_ancestor(self.txs, x, last) {
                    x
                } else {
                    assert forall|t: int| 0 <= t < k && #[trigger] set[t] implies cluster_graph::is_ancestor(
                        self.txs,
                        last,
                        t,
                    ) by {
                        if t < last {
                            cluster_graph::ancestor_transitive(self.txs, last, x, t);
                        }
                    }
                    last
                }
            } else {
                x
            }
        } else {
            last
        }
    }

    /// What candidates of a forest share is what is left of one package.
    proof fn forest_overlaps_are_packages(self, feerate: FeeRate, list: Seq<usize>, k: int) -> (x: int)
        requires
            self.is_forest(),
            0 <= k < list.len(),
            exists|t: int| 0 <= t < self.n() && #[trigger] self.overlap(feerate, list, k)[t],
        ensures
            0 <= x < self.n(),
            !self.mined_at(feerate)[x],
            self.overlap(feerate, list, k) == self.remaining(x, self.mined_at(feerate)),
    {
        let o = self.overlap(feerate, list, k);
        let mined = self.mined_at(feerate);
        let last = cluster_graph::only(list[k]);
        let before = listed(list.take(k));
        let some = choose|t: int| 0 <= t < self.n() && #[trigger] o[t];
        assert(self.package(last)[some]);
        let i = choose|i: int|
            0 <= i < self.spends.len() && last((#[trigger] self.spends[i]).0)
                && cluster_graph::is_ancestor(self.txs, self.spends[i].1 as int, some);
        let tx = self.spends[i].1 as int;
        assert forall|t: int| 0 <= t < self.n() && #[trigger] o[t] implies cluster_graph::is_ancestor(
            self.txs,
            tx,
            t,
        ) by {
            assert(self.package(last)[t]);
            let j = choose|j: int|
                0 <= j < self.spends.len() && last((#[trigger] self.spends[j]).0)
                    && cluster_graph::is_ancestor(self.txs, self.spends[j].1 as int, t);
            assert(self.spends[j].1 == self.spends[i].1);
        }
        let x = self.lowest_of_chain(tx, o, self.n());
        assert forall|t: int| 0 <= t < self.n() implies o[t] == self.remaining(x, mined)[t] by {
            if cluster_graph::is_ancestor(self.txs, x, t) && !mined[t] {
                cluster_graph::ancestor_transitive(self.txs, tx, x, t);
                assert(last(self.spends[i].0));
                assert(self.package(last)[t]);
                assert(self.package(before)[x]);
                let j = choose|j: int|
                    0 <= j < self.spends.len() && before((#[trigger] self.spends[j]).0)
                        && cluster_graph::is_ancestor(self.txs, self.spends[j].1 as int, x);
                cluster_graph::ancestor_transitive(self.txs, self.spends[j].1 as int, x, t);
                assert(before(self.spends[j].0));
                assert(self.package(before)[t]);
            }
        }
        assert(o =~= self.remaining(x, mined));
        x
    }

    /// A sum of weights that take up whole vbytes does too.
    proof fn weights_fill_vbytes(self, set: Seq<bool>, k: int)
        requires
            self.fills_vbytes(),
            set.len() == self.n(),
            0 <= k <= self.n(),
        ensures
            sums::sum(
                k,
                |t: int| if set[t] { (|t: int| self.txs[t].weight as int)(t) } else { 0 },
            ) % 4 == 0,
        decreases k,
    {
        if k > 0 {
            self.weights_fill_vbytes(set, k - 1);
            assert(self.txs[k - 1].weight % 4 == 0);
        }
    }

    /// In a forest whose transactions take up whole vbytes, what candidates owe together is never
    /// more than the sum of what each owes on its own: an ancestor that overpays is mined, so
    /// whatever candidates share pays too little.
    pub proof fn local_sum_covers_forests(self, feerate: FeeRate, list: Seq<usize>)
        requires
            self.is_forest(),
            self.fills_vbytes(),
            feerate.fee(self.weight_of(self.everything())) <= u64::MAX,
        ensures
            self.owed(feerate, listed(list)) <= self.local_sum(feerate, list),
    {
        assert forall|k: int| 0 <= k < list.len() implies !self.overpays(
            feerate,
            #[trigger] self.overlap(feerate, list, k),
        ) by {
            let o = self.overlap(feerate, list, k);
            if exists|t: int| 0 <= t < self.n() && #[trigger] o[t] {
                let x = self.forest_overlaps_are_packages(feerate, list, k);
                self.left_behind_pays_too_little(feerate, x);
                self.weights_fill_vbytes(o, self.n());
                let w = self.weight_of(o);
                let rate = feerate@ as int;
                assert(w * rate == 4 * ((w / 4) * rate)) by (nonlinear_arith)
                    requires
                        w == 4 * (w / 4),
                ;
            } else {
                sums::lemma_over_empty(o, |t: int| self.txs[t].weight as int);
                sums::lemma_over_empty(o, |t: int| self.txs[t].fee as int);
                assert(0 * feerate@ == 0) by (nonlinear_arith);
            }
        }
        self.local_sum_covers(feerate, list);
    }
}

} // verus!
