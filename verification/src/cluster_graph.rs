//! Unconfirmed transactions as a graph of parents, and what is reachable in it.
use crate::bitset;
use crate::feerate;
use crate::feerate::FeeRate;
use crate::sums;
use vstd::prelude::*;

verus! {

/// An unconfirmed transaction: its weight, its fee and its direct parents.
pub struct TxView {
    /// Weight in weight units.
    pub weight: u64,
    /// Fee paid, in satoshis.
    pub fee: u64,
    /// The direct parents, as indices.
    pub parents: Seq<usize>,
}

/// A piece of the mempool, and which candidates spend from which transactions.
pub struct ClusterView {
    /// The transactions.
    pub txs: Seq<TxView>,
    /// Pairs of a candidate and a transaction that it spends from.
    pub spends: Seq<(usize, usize)>,
}

/// Whether `parent` is a direct parent of `tx`.
pub open spec fn is_parent(txs: Seq<TxView>, tx: int, parent: int) -> bool {
    exists|k: int| 0 <= k < txs[tx].parents.len() && #[trigger] txs[tx].parents[k] == parent
}

/// Whether each transaction of the path is a parent of the one before it.
pub open spec fn is_path(txs: Seq<TxView>, path: Seq<int>) -> bool {
    &&& path.len() >= 1
    &&& forall|i: int| 0 <= i < path.len() ==> 0 <= #[trigger] path[i] < txs.len()
    &&& forall|i: int, j: int|
        0 <= i && j == i + 1 && j < path.len() ==> is_parent(txs, #[trigger] path[i], #[trigger] path[j])
}

/// Whether `ancestor` is `tx` itself or is reached from it by going from parent to parent.
pub open spec fn is_ancestor(txs: Seq<TxView>, tx: int, ancestor: int) -> bool {
    exists|path: Seq<int>| #[trigger]
        is_path(txs, path) && path[0] == tx && path.last() == ancestor
}

/// Whether `tx` is its own ancestor by way of a parent.
pub open spec fn on_cycle(txs: Seq<TxView>, tx: int) -> bool {
    exists|path: Seq<int>| #[trigger]
        is_path(txs, path) && path.len() >= 2 && path[0] == tx && path.last() == tx
}

/// Whether every parent is a transaction of the graph.
pub open spec fn parents_in_bounds(txs: Seq<TxView>) -> bool {
    forall|t: int, k: int|
        0 <= t < txs.len() && 0 <= k < txs[t].parents.len() ==> #[trigger] txs[t].parents[k]
            < txs.len()
}

/// Every transaction is its own ancestor.
pub proof fn ancestor_reflexive(txs: Seq<TxView>, tx: int)
    requires
        0 <= tx < txs.len(),
    ensures
        is_ancestor(txs, tx, tx),
{
    let path = seq![tx];
    assert(is_path(txs, path) && path[0] == tx && path.last() == tx);
}

/// The ancestors of a parent are ancestors.
pub proof fn ancestor_by_parent(txs: Seq<TxView>, tx: int, parent: int, ancestor: int)
    requires
        0 <= tx < txs.len(),
        is_parent(txs, tx, parent),
        is_ancestor(txs, parent, ancestor),
    ensures
        is_ancestor(txs, tx, ancestor),
        tx == ancestor ==> on_cycle(txs, tx),
{
    let rest = choose|path: Seq<int>| #[trigger]
        is_path(txs, path) && path[0] == parent && path.last() == ancestor;
    let path = seq![tx] + rest;
    assert forall|i: int, j: int| 0 <= i && j == i + 1 && j < path.len() implies is_parent(
        txs,
        #[trigger] path[i],
        #[trigger] path[j],
    ) by {
        if i > 0 {
            assert(path[i] == rest[i - 1] && path[j] == rest[j - 1]);
        }
    }
    assert forall|i: int| 0 <= i < path.len() implies 0 <= #[trigger] path[i] < txs.len() by {
        if i > 0 {
            assert(path[i] == rest[i - 1]);
        }
    }
    assert(path.last() == rest.last());
    assert(is_path(txs, path) && path[0] == tx && path.last() == ancestor);
}

/// An ancestor is the transaction itself or an ancestor of one of its parents.
pub proof fn ancestor_cases(txs: Seq<TxView>, tx: int, ancestor: int) -> (parent: int)
    requires
        is_ancestor(txs, tx, ancestor),
    ensures
        0 <= tx < txs.len(),
        0 <= ancestor < txs.len(),
        ancestor != tx ==> 0 <= parent < txs.len() && is_parent(txs, tx, parent) && is_ancestor(
            txs,
            parent,
            ancestor,
        ),
{
    let path = choose|path: Seq<int>| #[trigger]
        is_path(txs, path) && path[0] == tx && path.last() == ancestor;
    assert(0 <= path[0] < txs.len());
    assert(0 <= path[path.len() - 1] < txs.len());
    if path.len() >= 2 {
        path_tail(txs, path);
        assert(is_parent(txs, path[0], path[1]));
        path[1]
    } else {
        0
    }
}

/// A path without its first transaction is a path.
pub proof fn path_tail(txs: Seq<TxView>, path: Seq<int>)
    requires
        is_path(txs, path),
        path.len() >= 2,
    ensures
        is_path(txs, path.skip(1)),
        is_ancestor(txs, path[1], path.last()),
{
    let rest = path.skip(1);
    assert forall|i: int, j: int| 0 <= i && j == i + 1 && j < rest.len() implies is_parent(
        txs,
        #[trigger] rest[i],
        #[trigger] rest[j],
    ) by {
        assert(is_parent(txs, path[i + 1], path[j + 1]));
    }
    assert forall|i: int| 0 <= i < rest.len() implies 0 <= #[trigger] rest[i] < txs.len() by {
        assert(rest[i] == path[i + 1]);
    }
    assert(is_path(txs, rest) && rest[0] == path[1] && rest.last() == path.last());
}

/// A transaction on a cycle has a parent whose ancestor it is.
pub proof fn cycle_by_parent(txs: Seq<TxView>, tx: int) -> (parent: int)
    requires
        on_cycle(txs, tx),
    ensures
        is_parent(txs, tx, parent),
        is_ancestor(txs, parent, tx),
        0 <= parent < txs.len(),
{
    let path = choose|path: Seq<int>| #[trigger]
        is_path(txs, path) && path.len() >= 2 && path[0] == tx && path.last() == tx;
    path_tail(txs, path);
    assert(is_parent(txs, path[0], path[1]));
    assert(0 <= path[1] < txs.len());
    path[1]
}

/// Ancestors of ancestors are ancestors.
pub proof fn ancestor_transitive(txs: Seq<TxView>, a: int, b: int, c: int)
    requires
        is_ancestor(txs, a, b),
        is_ancestor(txs, b, c),
    ensures
        is_ancestor(txs, a, c),
{
    let p = choose|path: Seq<int>| #[trigger]
        is_path(txs, path) && path[0] == a && path.last() == b;
    ancestor_along(txs, p, c);
}

proof fn ancestor_along(txs: Seq<TxView>, path: Seq<int>, c: int)
    requires
        is_path(txs, path),
        is_ancestor(txs, path.last(), c),
    ensures
        is_ancestor(txs, path[0], c),
    decreases path.len(),
{
    if path.len() >= 2 {
        path_tail(txs, path);
        ancestor_along(txs, path.skip(1), c);
        assert(is_parent(txs, path[0], path[1]));
        assert(0 <= path[0] < txs.len());
        ancestor_by_parent(txs, path[0], path[1], c);
    }
}

/// Holds of candidate `c` only.
pub open spec fn only(c: usize) -> spec_fn(usize) -> bool {
    |x: usize| x == c
}

/// Holds of the candidates that are selected.
pub open spec fn among(selected: Seq<bool>) -> spec_fn(usize) -> bool {
    |x: usize| x < selected.len() && selected[x as int]
}

impl ClusterView {
    /// The number of transactions.
    pub open spec fn n(self) -> int {
        self.txs.len() as int
    }

    /// For each transaction, whether it is `tx` or one of its ancestors.
    pub open spec fn closure(self, tx: int) -> Seq<bool> {
        Seq::new(self.txs.len(), |a: int| is_ancestor(self.txs, tx, a))
    }

    /// Whether the references within the cluster are sound: parents and spends are transactions of
    /// it, and no transaction is its own ancestor.
    pub open spec fn wf(self) -> bool {
        &&& parents_in_bounds(self.txs)
        &&& forall|i: int| 0 <= i < self.spends.len() ==> (#[trigger] self.spends[i]).1 < self.txs.len()
        &&& forall|t: int| 0 <= t < self.n() ==> !#[trigger] on_cycle(self.txs, t)
    }

    /// The weight of some of the transactions.
    pub open spec fn weight_of(self, s: Seq<bool>) -> int {
        sums::over(s, |t: int| self.txs[t].weight as int)
    }

    /// The fee of some of the transactions.
    pub open spec fn fee_of(self, s: Seq<bool>) -> int {
        sums::over(s, |t: int| self.txs[t].fee as int)
    }

    /// For each transaction, whether it counts in any sum.
    pub open spec fn everything(self) -> Seq<bool> {
        Seq::new(self.txs.len(), |t: int| true)
    }

    /// Whether the sums over any transactions fit the integers that hold them.
    pub open spec fn sums_fit(self) -> bool {
        &&& self.weight_of(self.everything()) <= u64::MAX
        &&& self.fee_of(self.everything()) <= u64::MAX
    }

    /// A sum over some transactions is at most the sum over all.
    pub proof fn sums_bounded(self, s: Seq<bool>)
        requires
            s.len() == self.n(),
        ensures
            0 <= self.weight_of(s) <= self.weight_of(self.everything()),
            0 <= self.fee_of(s) <= self.fee_of(self.everything()),
    {
        sums::lemma_over_le(s, self.everything(), |t: int| self.txs[t].weight as int);
        sums::lemma_over_le(s, self.everything(), |t: int| self.txs[t].fee as int);
    }

    /// For each transaction, whether it is `tx` or an ancestor and has not been mined.
    pub open spec fn remaining(self, tx: int, mined: Seq<bool>) -> Seq<bool> {
        Seq::new(self.txs.len(), |a: int| is_ancestor(self.txs, tx, a) && !mined[a])
    }

    /// Whether what is left of the package of `i` pays more per weight than that of `j`.
    pub open spec fn pays_more(self, i: int, j: int, mined: Seq<bool>) -> bool {
        self.fee_of(self.remaining(i, mined)) * self.weight_of(self.remaining(j, mined))
            > self.fee_of(self.remaining(j, mined)) * self.weight_of(self.remaining(i, mined))
    }

    /// Of the first `k` transactions that have not been mined, the one whose remaining package pays
    /// the most, where a later one must pay more to take the place of an earlier one.
    pub open spec fn best_package(self, mined: Seq<bool>, k: int) -> Option<int>
        decreases k,
    {
        if k <= 0 {
            None
        } else {
            match self.best_package(mined, k - 1) {
                None => if mined[k - 1] {
                    None
                } else {
                    Some(k - 1)
                },
                Some(best) => if !mined[k - 1] && self.pays_more(k - 1, best, mined) {
                    Some(k - 1)
                } else {
                    Some(best)
                },
            }
        }
    }

    /// The best package belongs to a transaction that has not been mined; there is none only where
    /// all have been.
    pub proof fn best_package_unmined(self, mined: Seq<bool>, k: int)
        requires
            0 <= k <= self.n(),
        ensures
            match self.best_package(mined, k) {
                Some(best) => 0 <= best < k && !mined[best],
                None => forall|t: int| 0 <= t < k ==> #[trigger] mined[t],
            },
        decreases k,
    {
        if k > 0 {
            self.best_package_unmined(mined, k - 1);
        }
    }

    /// What is mined once the package of `tx` is.
    pub open spec fn mined_with(self, tx: int, mined: Seq<bool>) -> Seq<bool> {
        Seq::new(self.txs.len(), |a: int| mined[a] || is_ancestor(self.txs, tx, a))
    }

    /// Mining a package that has not been mined yet mines more.
    pub proof fn mining_progresses(self, tx: int, mined: Seq<bool>)
        requires
            mined.len() == self.n(),
            0 <= tx < self.n(),
            !mined[tx],
        ensures
            bitset::size(mined) < bitset::size(self.mined_with(tx, mined)) <= self.n(),
    {
        ancestor_reflexive(self.txs, tx);
        let step = mined.update(tx, true);
        bitset::size_insert(mined, tx);
        bitset::size_bounded(step, self.mined_with(tx, mined));
    }

    /// What a miner who asks for `feerate` mines after `mined`: package by package, the best one
    /// first, until the best one pays too little.
    pub open spec fn mine_from(self, mined: Seq<bool>, feerate: FeeRate) -> Seq<bool>
        decreases self.n() - bitset::size(mined),
    {
        if mined.len() != self.n() {
            mined
        } else {
            match self.best_package(mined, self.n()) {
                None => mined,
                Some(best) => {
                    let rest = self.remaining(best, mined);
                    if self.fee_of(rest) < feerate::saturated(
                        feerate.fee_wu(self.weight_of(rest)),
                    ) {
                        mined
                    } else {
                        proof {
                            self.best_package_unmined(mined, self.n());
                            self.mining_progresses(best, mined);
                        }
                        self.mine_from(self.mined_with(best, mined), feerate)
                    }
                },
            }
        }
    }

    /// What a miner who asks for `feerate` includes in a block.
    pub open spec fn mined_at(self, feerate: FeeRate) -> Seq<bool> {
        self.mine_from(Seq::new(self.txs.len(), |t: int| false), feerate)
    }

    /// For each transaction, whether selecting a candidate of which `picked` holds pulls it in: the
    /// transactions that it spends from, with their ancestors.
    pub open spec fn package(self, picked: spec_fn(usize) -> bool) -> Seq<bool> {
        Seq::new(
            self.txs.len(),
            |a: int|
                exists|i: int|
                    0 <= i < self.spends.len() && picked((#[trigger] self.spends[i]).0)
                        && is_ancestor(self.txs, self.spends[i].1 as int, a),
        )
    }

    /// For each transaction, whether a candidate of which `picked` holds pulls it in and a miner
    /// who asks for `feerate` leaves it behind.
    pub open spec fn left_behind(self, feerate: FeeRate, picked: spec_fn(usize) -> bool) -> Seq<
        bool,
    > {
        Seq::new(
            self.txs.len(),
            |a: int| self.package(picked)[a] && !self.mined_at(feerate)[a],
        )
    }

    /// What transactions of the given weight and fee lack to reach `feerate`, with the rate applied
    /// to whole vbytes.
    pub open spec fn deficit(feerate: FeeRate, weight: int, fee: int) -> int {
        let owed = feerate::saturated(feerate.fee(weight));
        if owed > fee {
            owed - fee
        } else {
            0
        }
    }

    /// What the candidates of which `picked` holds owe together at `feerate`.
    pub open spec fn owed(self, feerate: FeeRate, picked: spec_fn(usize) -> bool) -> int {
        let rest = self.left_behind(feerate, picked);
        Self::deficit(feerate, self.weight_of(rest), self.fee_of(rest))
    }

    /// Whether `list` holds the candidates that spend from the cluster, ascending.
    pub open spec fn lists_candidates(self, list: Seq<usize>) -> bool {
        &&& forall|i: int, j: int| 0 <= i < j < list.len() ==> #[trigger] list[i] < #[trigger] list[j]
        &&& forall|k: int| 0 <= k < list.len() ==> self.is_spent_by(#[trigger] list[k])
        &&& forall|c: usize| #[trigger] self.is_spent_by(c) ==> list.contains(c)
    }

    /// Whether candidate `c` spends from the cluster.
    pub open spec fn is_spent_by(self, c: usize) -> bool {
        exists|i: int| 0 <= i < self.spends.len() && (#[trigger] self.spends[i]).0 == c
    }

    /// What is mined says so for each transaction.
    pub proof fn mined_has_length(self, feerate: FeeRate)
        ensures
            self.mined_at(feerate).len() == self.n(),
    {
        self.mine_from_has_length(Seq::new(self.txs.len(), |t: int| false), feerate);
    }

    proof fn mine_from_has_length(self, mined: Seq<bool>, feerate: FeeRate)
        requires
            mined.len() == self.n(),
        ensures
            self.mine_from(mined, feerate).len() == self.n(),
        decreases self.n() - bitset::size(mined),
    {
        if let Some(best) = self.best_package(mined, self.n()) {
            self.best_package_unmined(mined, self.n());
            self.mining_progresses(best, mined);
            self.mine_from_has_length(self.mined_with(best, mined), feerate);
        }
    }
}

} // verus!
