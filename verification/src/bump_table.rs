//! What spending unconfirmed outputs costs.
use crate::bitset::Bitset;
use crate::cluster_graph;
use crate::cluster_graph::ClusterView;
use crate::feerate;
use crate::feerate::FeeRate;
use crate::mempool::Cluster;
use crate::sums;
use vstd::prelude::*;

verus! {

/// An unconfirmed transaction that may need bumping.
#[derive(Debug, Clone, Copy)]
struct Unit {
    weight: u64,
    fee: u64,
}

/// A candidate that carries ancestors: the units it drags in, and what it owes alone.
#[derive(Debug)]
struct Entry {
    candidate: usize,
    drags_in: Bitset,
    individual: u64,
}

/// What spending unconfirmed outputs costs at one feerate.
///
/// It is built from a [`Cluster`], because what a miner includes anyway costs nothing.
///
/// It answers two questions. [`combined`](Self::combined) is what a *set* of candidates owes
/// together: an ancestor that two of them share is paid for once. [`individual`](Self::individual)
/// is what one candidate owes on its own, which can be added up over candidates.
///
/// Both are computed for one feerate and mean nothing at any other.
#[derive(Debug)]
pub struct BumpTable {
    feerate: FeeRate,
    /// The transactions that a miner leaves behind.
    units: Vec<Unit>,
    /// The candidates that carry ancestors, ascending.
    entries: Vec<Entry>,
}

/// The contents of a [`BumpTable`].
pub struct TableView {
    /// The feerate that is asked for.
    pub feerate: FeeRate,
    /// Weight and fee of the transactions that may need bumping.
    pub units: Seq<(u64, u64)>,
    /// The candidates that carry ancestors, with the units they drag in.
    pub entries: Seq<(usize, Seq<bool>)>,
}

impl TableView {
    /// The weight of some of the units.
    pub open spec fn weight_of(self, set: Seq<bool>) -> int {
        sums::over(set, |u: int| self.units[u].0 as int)
    }

    /// The fee of some of the units.
    pub open spec fn fee_of(self, set: Seq<bool>) -> int {
        sums::over(set, |u: int| self.units[u].1 as int)
    }

    /// For each unit, whether a candidate of which `picked` holds drags it in.
    pub open spec fn union(self, picked: spec_fn(usize) -> bool) -> Seq<bool> {
        Seq::new(
            self.units.len(),
            |u: int|
                exists|k: int|
                    0 <= k < self.entries.len() && picked((#[trigger] self.entries[k]).0)
                        && self.entries[k].1[u],
        )
    }

    /// What the units of a set lack together.
    pub open spec fn deficit(self, set: Seq<bool>) -> int {
        ClusterView::deficit(self.feerate, self.weight_of(set), self.fee_of(set))
    }

    /// What the candidates of which `picked` holds owe together.
    pub open spec fn owed(self, picked: spec_fn(usize) -> bool) -> int {
        self.deficit(self.union(picked))
    }

    /// What candidate `c` owes on its own.
    pub open spec fn individual(self, c: usize) -> int {
        self.owed(cluster_graph::only(c))
    }

    /// What the candidates of `selected` owe together.
    pub open spec fn combined(self, selected: Seq<bool>) -> int {
        self.owed(cluster_graph::among(selected))
    }

    /// Whether the entries are ascending and the sums fit the integers that hold them.
    pub open spec fn wf(self) -> bool {
        let all = Seq::new(self.units.len(), |u: int| true);
        &&& forall|i: int, j: int|
            0 <= i < j < self.entries.len() ==> (#[trigger] self.entries[i]).0 < (
            #[trigger] self.entries[j]).0
        &&& forall|k: int|
            0 <= k < self.entries.len() ==> (#[trigger] self.entries[k]).1.len() == self.units.len()
        &&& self.weight_of(all) <= u64::MAX
        &&& self.fee_of(all) <= u64::MAX
    }

    /// A sum over some units is at most the sum over all.
    proof fn sums_bounded(self, set: Seq<bool>)
        requires
            self.wf(),
            set.len() == self.units.len(),
        ensures
            0 <= self.weight_of(set) <= u64::MAX,
            0 <= self.fee_of(set) <= u64::MAX,
    {
        let all = Seq::new(self.units.len(), |u: int| true);
        sums::lemma_over_le(set, all, |u: int| self.units[u].0 as int);
        sums::lemma_over_le(set, all, |u: int| self.units[u].1 as int);
    }

    /// What a candidate drags in alone is what its entry holds.
    proof fn union_of_one(self, k: int)
        requires
            self.wf(),
            0 <= k < self.entries.len(),
        ensures
            self.union(cluster_graph::only(self.entries[k].0)) == self.entries[k].1,
    {
        let c = self.entries[k].0;
        let union = self.union(cluster_graph::only(c));
        assert forall|u: int| 0 <= u < self.units.len() implies union[u] == self.entries[k].1[u] by {
            if union[u] {
                let i = choose|i: int|
                    0 <= i < self.entries.len() && (#[trigger] self.entries[i]).0 == c
                        && self.entries[i].1[u];
                if i < k {
                    assert(self.entries[i].0 < self.entries[k].0);
                }
                if k < i {
                    assert(self.entries[k].0 < self.entries[i].0);
                }
            }
            if self.entries[k].1[u] {
                assert(self.entries[k].0 == c);
            }
        }
        assert(union =~= self.entries[k].1);
    }

    /// A candidate without an entry owes nothing.
    proof fn nothing_owed(self, c: usize)
        requires
            forall|k: int| 0 <= k < self.entries.len() ==> (#[trigger] self.entries[k]).0 != c,
        ensures
            self.individual(c) == 0,
    {
        let union = self.union(cluster_graph::only(c));
        sums::lemma_over_empty(union, |u: int| self.units[u].0 as int);
        sums::lemma_over_empty(union, |u: int| self.units[u].1 as int);
        self.feerate.fee_wu_at_most_fee(0);
    }
}

impl View for BumpTable {
    type V = TableView;

    closed spec fn view(&self) -> TableView {
        TableView {
            feerate: self.feerate,
            units: Seq::new(
                self.units@.len(),
                |u: int| (self.units@[u].weight, self.units@[u].fee),
            ),
            entries: Seq::new(
                self.entries@.len(),
                |k: int| (self.entries@[k].candidate, self.entries@[k].drags_in@),
            ),
        }
    }
}

/// What a set of unconfirmed transactions lacks at `feerate`, as a package.
fn deficit(set: &Bitset, units: &Vec<Unit>, feerate: FeeRate) -> (owed: u64)
    requires
        set@.len() == units@.len(),
        sums::over(set@, |u: int| units@[u].weight as int) <= u64::MAX,
        sums::over(set@, |u: int| units@[u].fee as int) <= u64::MAX,
    ensures
        owed == ClusterView::deficit(
            feerate,
            sums::over(set@, |u: int| units@[u].weight as int),
            sums::over(set@, |u: int| units@[u].fee as int),
        ),
{
    let ghost s = set@;
    let ghost n = s.len() as int;
    let ghost w = |u: int| if s[u] { (|u: int| units@[u].weight as int)(u) } else { 0 };
    let ghost f = |u: int| if s[u] { (|u: int| units@[u].fee as int)(u) } else { 0 };
    let mut weight: u64 = 0;
    let mut fee: u64 = 0;
    let mut i: usize = 0;
    while i < units.len()
        invariant
            s == set@,
            n == s.len(),
            n == units@.len(),
            w == (|u: int| if s[u] { (|u: int| units@[u].weight as int)(u) } else { 0 }),
            f == (|u: int| if s[u] { (|u: int| units@[u].fee as int)(u) } else { 0 }),
            sums::sum(n, w) <= u64::MAX,
            sums::sum(n, f) <= u64::MAX,
            i <= n,
            weight == sums::sum(i as int, w),
            fee == sums::sum(i as int, f),
        decreases n - i,
    {
        proof {
            sums::lemma_sum_prefix(i + 1, n, w);
            sums::lemma_sum_prefix(i + 1, n, f);
        }
        if set.contains(i) {
            weight = weight + units[i].weight;
            fee = fee + units[i].fee;
        }
        i = i + 1;
    }
    feerate.implied_fee(weight).saturating_sub(fee)
}

impl BumpTable {
    /// Whether the entries are ascending and what each candidate owes alone is stored with it.
    pub closed spec fn inv(&self) -> bool {
        &&& self@.wf()
        &&& forall|k: int|
            0 <= k < self.entries@.len() ==> (#[trigger] self.entries@[k]).individual
                == self@.deficit(self.entries@[k].drags_in@)
    }

    /// The stored deficits are those of the view.
    proof fn deficit_of(&self, set: Seq<bool>)
        requires
            set.len() == self.units@.len(),
        ensures
            self@.weight_of(set) == sums::over(set, |u: int| self.units@[u].weight as int),
            self@.fee_of(set) == sums::over(set, |u: int| self.units@[u].fee as int),
    {
        sums::lemma_over_ext(
            set,
            set,
            |u: int| self@.units[u].0 as int,
            |u: int| self.units@[u].weight as int,
        );
        sums::lemma_over_ext(
            set,
            set,
            |u: int| self@.units[u].1 as int,
            |u: int| self.units@[u].fee as int,
        );
    }

    /// The feerate these figures were computed for. They mean nothing at any other.
    pub fn feerate(&self) -> (r: FeeRate)
        ensures
            r == self@.feerate,
    {
        self.feerate
    }

    /// The candidates that carry unconfirmed ancestors, ascending.
    pub fn candidates(&self) -> (list: Vec<usize>)
        ensures
            list@ == Seq::new(self@.entries.len(), |k: int| self@.entries[k].0),
    {
        let mut list: Vec<usize> = Vec::new();
        let mut k: usize = 0;
        while k < self.entries.len()
            invariant
                k <= self.entries@.len(),
                list@ == Seq::new(k as nat, |i: int| self.entries@[i].candidate),
            decreases self.entries@.len() - k,
        {
            list.push(self.entries[k].candidate);
            k = k + 1;
        }
        proof {
            assert(list@ =~= Seq::new(self@.entries.len(), |k: int| self@.entries[k].0));
        }
        list
    }

    /// What `candidate` owes on its own, whatever else might be selected. It is zero without
    /// unconfirmed ancestors, and where a miner would include them anyway.
    pub fn individual(&self, candidate: usize) -> (bump: u64)
        requires
            self.inv(),
        ensures
            bump == self@.individual(candidate),
    {
        let mut k: usize = 0;
        while k < self.entries.len()
            invariant
                self.inv(),
                k <= self.entries@.len(),
                forall|i: int| 0 <= i < k ==> (#[trigger] self.entries@[i]).candidate != candidate,
            decreases self.entries@.len() - k,
        {
            if self.entries[k].candidate == candidate {
                proof {
                    self@.union_of_one(k as int);
                }
                return self.entries[k].individual;
            }
            k = k + 1;
        }
        proof {
            assert forall|k: int| 0 <= k < self@.entries.len() implies (#[trigger] self@.entries[k]).0
                != candidate by {
                assert(self.entries@[k].candidate != candidate);
            }
            self@.nothing_owed(candidate);
        }
        0
    }

    /// What each candidate owes on its own, by ascending candidate index.
    pub fn individual_bumps(&self) -> (list: Vec<(usize, u64)>)
        requires
            self.inv(),
        ensures
            list@.len() == self@.entries.len(),
            forall|k: int|
                0 <= k < list@.len() ==> (#[trigger] list@[k]).0 == self@.entries[k].0
                    && list@[k].1 == self@.individual(list@[k].0),
    {
        let mut list: Vec<(usize, u64)> = Vec::new();
        let mut k: usize = 0;
        while k < self.entries.len()
            invariant
                self.inv(),
                k <= self.entries@.len(),
                list@.len() == k,
                forall|i: int|
                    0 <= i < k ==> (#[trigger] list@[i]).0 == self@.entries[i].0 && list@[i].1
                        == self@.individual(list@[i].0),
            decreases self.entries@.len() - k,
        {
            proof {
                self@.union_of_one(k as int);
            }
            list.push((self.entries[k].candidate, self.entries[k].individual));
            k = k + 1;
        }
        list
    }

    /// What the candidates in `selected` owe *together*, with shared ancestors counted once. This
    /// is what the transaction has to pay.
    pub fn combined(&self, selected: &Bitset) -> (bump: u64)
        requires
            self.inv(),
        ensures
            bump == self@.combined(selected@),
    {
        let ghost view = self@;
        let ghost m = self.units@.len();
        let mut units: Bitset = Bitset::with_capacity(self.units.len());
        let mut k: usize = 0;
        while k < self.entries.len()
            invariant
                self.inv(),
                view == self@,
                m == self.units@.len(),
                units@.len() == m,
                k <= self.entries@.len(),
                forall|u: int|
                    0 <= u < m ==> #[trigger] units@[u] == exists|i: int|
                        0 <= i < k && (#[trigger] view.entries[i]).0 < selected@.len()
                            && selected@[view.entries[i].0 as int] && view.entries[i].1[u],
            decreases self.entries@.len() - k,
        {
            let ghost before = units@;
            assert(view.entries[k as int].1.len() == m);
            let taken: bool = selected.contains(self.entries[k].candidate);
            if taken {
                units.insert_all(&self.entries[k].drags_in);
            }
            proof {
                assert forall|u: int| 0 <= u < m implies #[trigger] units@[u] == exists|i: int|
                    0 <= i < k + 1 && (#[trigger] view.entries[i]).0 < selected@.len()
                        && selected@[view.entries[i].0 as int] && view.entries[i].1[u] by {
                    if before[u] {
                        let i = choose|i: int|
                            0 <= i < k && (#[trigger] view.entries[i]).0 < selected@.len()
                                && selected@[view.entries[i].0 as int] && view.entries[i].1[u];
                        assert(view.entries[i].1[u]);
                    }
                    if taken && view.entries[k as int].1[u] {
                        assert(view.entries[k as int].0 < selected@.len());
                    }
                }
            }
            k = k + 1;
        }
        proof {
            assert(units@ =~= view.union(cluster_graph::among(selected@)));
            view.sums_bounded(units@);
            self.deficit_of(units@);
        }
        deficit(&units, &self.units, self.feerate)
    }

    /// The largest candidate index that the table refers to, or `None` if it refers to none.
    pub fn max_candidate_index(&self) -> (r: Option<usize>)
        requires
            self.inv(),
        ensures
            match r {
                Some(c) => self@.entries.len() > 0 && c == self@.entries.last().0,
                None => self@.entries.len() == 0,
            },
    {
        let len: usize = self.entries.len();
        if len == 0 {
            None
        } else {
            Some(self.entries[len - 1].candidate)
        }
    }
}

/// How many of the first `t` transactions are left behind.
spec fn rank(mined: Seq<bool>, t: int) -> int {
    sums::sum(t, |i: int| if mined[i] { 0int } else { 1 })
}

/// Transactions that are left behind are numbered in their order, without gaps.
proof fn rank_steps(mined: Seq<bool>, s: int, t: int)
    requires
        0 <= s < t <= mined.len(),
    ensures
        0 <= rank(mined, s) <= rank(mined, t) <= t,
        !mined[s] ==> rank(mined, s) < rank(mined, t),
    decreases t,
{
    let f = |i: int| if mined[i] { 0int } else { 1 };
    rank_bounded(mined, t);
    sums::lemma_sum_prefix(s, t, f);
    sums::lemma_sum_prefix(s + 1, t, f);
}

proof fn rank_bounded(mined: Seq<bool>, t: int)
    requires
        0 <= t <= mined.len(),
    ensures
        0 <= rank(mined, t) <= t,
    decreases t,
{
    if t > 0 {
        rank_bounded(mined, t - 1);
    }
}

/// A sum over some of the transactions that are left behind, taken by their numbers.
proof fn sum_by_rank(
    mined: Seq<bool>,
    k: int,
    by_unit: spec_fn(int) -> int,
    by_tx: spec_fn(int) -> int,
)
    requires
        0 <= k <= mined.len(),
        forall|t: int|
            0 <= t < k ==> #[trigger] by_tx(t) == (if mined[t] {
                0
            } else {
                by_unit(rank(mined, t))
            }),
    ensures
        sums::sum(rank(mined, k), by_unit) == sums::sum(k, by_tx),
    decreases k,
{
    if k > 0 {
        sum_by_rank(mined, k - 1, by_unit, by_tx);
        rank_bounded(mined, k - 1);
        assert(by_tx(k - 1) == (if mined[k - 1] {
            0
        } else {
            by_unit(rank(mined, k - 1))
        }));
    }
}

/// Whether the units are the transactions left behind among the first `k`, numbered in their order.
spec fn numbered(
    view: ClusterView,
    mined: Seq<bool>,
    units: Seq<Unit>,
    unit_of_tx: Seq<usize>,
    k: int,
) -> bool {
    &&& units.len() == rank(mined, k)
    &&& forall|t: int|
        0 <= t < k && !mined[t] ==> {
            &&& #[trigger] unit_of_tx[t] == rank(mined, t)
            &&& units[rank(mined, t)].weight == view.txs[t].weight
            &&& units[rank(mined, t)].fee == view.txs[t].fee
        }
}

/// Sums over units are sums over the transactions that they stand for.
proof fn unit_sums(
    view: ClusterView,
    mined: Seq<bool>,
    units: Seq<Unit>,
    unit_of_tx: Seq<usize>,
    set: Seq<bool>,
    txs: Seq<bool>,
)
    requires
        mined.len() == view.n(),
        numbered(view, mined, units, unit_of_tx, view.n()),
        set.len() == units.len(),
        txs.len() == view.n(),
        forall|t: int|
            0 <= t < view.n() ==> #[trigger] txs[t] == (!mined[t] && set[rank(mined, t)]),
    ensures
        sums::over(set, |u: int| units[u].weight as int) == view.weight_of(txs),
        sums::over(set, |u: int| units[u].fee as int) == view.fee_of(txs),
{
    let n = view.n();
    let w = |u: int| if set[u] { (|u: int| units[u].weight as int)(u) } else { 0 };
    let f = |u: int| if set[u] { (|u: int| units[u].fee as int)(u) } else { 0 };
    let tw = |t: int| if txs[t] { (|t: int| view.txs[t].weight as int)(t) } else { 0 };
    let tf = |t: int| if txs[t] { (|t: int| view.txs[t].fee as int)(t) } else { 0 };
    assert forall|t: int| 0 <= t < n implies #[trigger] tw(t) == (if mined[t] {
        0
    } else {
        w(rank(mined, t))
    }) by {
        assert(txs[t] == (!mined[t] && set[rank(mined, t)]));
        assert(!mined[t] ==> unit_of_tx[t] == rank(mined, t));
    }
    assert forall|t: int| 0 <= t < n implies #[trigger] tf(t) == (if mined[t] {
        0
    } else {
        f(rank(mined, t))
    }) by {
        assert(txs[t] == (!mined[t] && set[rank(mined, t)]));
        assert(!mined[t] ==> unit_of_tx[t] == rank(mined, t));
    }
    sum_by_rank(mined, n, w, tw);
    sum_by_rank(mined, n, f, tf);
}

/// The transactions of `package` that are left behind, by their numbers.
fn number_package(
    package: &Bitset,
    mined: &Bitset,
    unit_of_tx: &Vec<usize>,
    n_units: usize,
) -> (drags_in: Bitset)
    requires
        package@.len() == mined@.len(),
        unit_of_tx@.len() == mined@.len(),
        n_units == rank(mined@, mined@.len() as int),
        forall|t: int|
            0 <= t < mined@.len() && !mined@[t] ==> #[trigger] unit_of_tx@[t] == rank(mined@, t),
    ensures
        drags_in@.len() == n_units,
        forall|t: int|
            0 <= t < mined@.len() && !mined@[t] ==> drags_in@[rank(mined@, t)]
                == #[trigger] package@[t],
{
    let ghost n = mined@.len() as int;
    let mut drags_in: Bitset = Bitset::with_capacity(n_units);
    let mut t: usize = 0;
    while t < package.capacity()
        invariant
            n == mined@.len(),
            package@.len() == n,
            unit_of_tx@.len() == n,
            n_units == rank(mined@, n),
            forall|t: int| 0 <= t < n && !mined@[t] ==> #[trigger] unit_of_tx@[t] == rank(mined@, t),
            t <= n,
            drags_in@.len() == n_units,
            forall|i: int|
                0 <= i < t && !mined@[i] ==> drags_in@[rank(mined@, i)] == #[trigger] package@[i],
            forall|u: int| rank(mined@, t as int) <= u < n_units ==> !#[trigger] drags_in@[u],
        decreases n - t,
    {
        let ghost before = drags_in@;
        proof {
            rank_steps(mined@, t as int, n);
            rank_steps(mined@, t as int, t + 1);
        }
        if package.contains(t) && !mined.contains(t) {
            assert(unit_of_tx@[t as int] == rank(mined@, t as int));
            drags_in.insert(unit_of_tx[t]);
        }
        proof {
            assert forall|i: int| 0 <= i < t + 1 && !mined@[i] implies drags_in@[rank(mined@, i)]
                == #[trigger] package@[i] by {
                if i < t {
                    rank_steps(mined@, i, t as int);
                    rank_steps(mined@, i, n);
                    assert(before[rank(mined@, i)] == package@[i]);
                }
            }
        }
        t = t + 1;
    }
    drags_in
}

impl BumpTable {
    /// The table of a cluster at `feerate`: a mock block is mined, and only what it leaves behind
    /// is charged for.
    ///
    /// The block is built once: what a miner includes depends on the cluster and the feerate, not
    /// on which outputs are asked about.
    pub fn from_cluster(cluster: &Cluster, feerate: FeeRate) -> (table: Self)
        requires
            cluster.inv(),
            cluster@.sums_fit(),
        ensures
            table.inv(),
            table@.feerate == feerate,
            cluster@.lists_candidates(Seq::new(table@.entries.len(), |k: int| table@.entries[k].0)),
            forall|picked: spec_fn(usize) -> bool| #[trigger]
                table@.owed(picked) == cluster@.owed(feerate, picked),
    {
        let ghost view = cluster@;
        let n: usize = cluster.n_txs();
        let mined: Bitset = cluster.mine(feerate);
        proof {
            cluster.inv_wf();
            view.mined_has_length(feerate);
        }

        // The transactions left behind are numbered, as if the mined ones did not exist.
        let mut unit_of_tx: Vec<usize> = Vec::new();
        let mut units: Vec<Unit> = Vec::new();
        let mut t: usize = 0;
        while t < n
            invariant
                cluster.inv(),
                view == cluster@,
                n == view.n(),
                mined@.len() == n,
                t <= n,
                unit_of_tx@.len() == t,
                numbered(view, mined@, units@, unit_of_tx@, t as int),
            decreases n - t,
        {
            let ghost before = units@;
            let ghost numbers = unit_of_tx@;
            proof {
                rank_bounded(mined@, t as int);
            }
            if !mined.contains(t) {
                unit_of_tx.push(units.len());
                units.push(Unit { weight: cluster.tx(t).weight, fee: cluster.tx(t).fee });
            } else {
                unit_of_tx.push(usize::MAX);
            }
            proof {
                assert forall|i: int| 0 <= i < t + 1 && !mined@[i] implies {
                    &&& #[trigger] unit_of_tx@[i] == rank(mined@, i)
                    &&& units@[rank(mined@, i)].weight == view.txs[i].weight
                    &&& units@[rank(mined@, i)].fee == view.txs[i].fee
                } by {
                    if i < t {
                        assert(numbers[i] == rank(mined@, i));
                        rank_steps(mined@, i, t as int);
                    }
                }
            }
            t = t + 1;
        }

        let candidates: Vec<usize> = cluster.candidates();
        let ghost all = Seq::new(units@.len(), |u: int| true);
        proof {
            let every = Seq::new(view.txs.len(), |t: int| !mined@[t]);
            assert forall|t: int| 0 <= t < n implies #[trigger] every[t] == (!mined@[t]
                && all[rank(mined@, t)]) by {
                rank_steps(mined@, t, n as int);
            }
            unit_sums(view, mined@, units@, unit_of_tx@, all, every);
            view.sums_bounded(every);
        }
        let mut entries: Vec<Entry> = Vec::new();
        let mut k: usize = 0;
        while k < candidates.len()
            invariant
                cluster.inv(),
                view == cluster@,
                n == view.n(),
                mined@.len() == n,
                mined@ == view.mined_at(feerate),
                unit_of_tx@.len() == n,
                numbered(view, mined@, units@, unit_of_tx@, n as int),
                all == Seq::new(units@.len(), |u: int| true),
                sums::over(all, |u: int| units@[u].weight as int) <= u64::MAX,
                sums::over(all, |u: int| units@[u].fee as int) <= u64::MAX,
                k <= candidates@.len(),
                entries@.len() == k,
                forall|i: int|
                    0 <= i < k ==> {
                        let entry = #[trigger] entries@[i];
                        &&& entry.candidate == candidates@[i]
                        &&& entry.drags_in@.len() == units@.len()
                        &&& entry.individual == ClusterView::deficit(
                            feerate,
                            sums::over(entry.drags_in@, |u: int| units@[u].weight as int),
                            sums::over(entry.drags_in@, |u: int| units@[u].fee as int),
                        )
                        &&& forall|t: int|
                            0 <= t < n && !mined@[t] ==> entry.drags_in@[#[trigger] rank(mined@, t)]
                                == view.package(cluster_graph::only(entry.candidate))[t]
                    },
            decreases candidates@.len() - k,
        {
            let candidate: usize = candidates[k];
            let package: Bitset = cluster.package_of(candidate);
            let drags_in: Bitset = number_package(&package, &mined, &unit_of_tx, units.len());
            proof {
                let set = drags_in@;
                sums::lemma_over_le(set, all, |u: int| units@[u].weight as int);
                sums::lemma_over_le(set, all, |u: int| units@[u].fee as int);
                assert forall|t: int| 0 <= t < n && !mined@[t] implies set[
                    #[trigger] rank(mined@, t)
                ] == view.package(cluster_graph::only(candidate))[t] by {
                    assert(set[rank(mined@, t)] == package@[t]);
                }
            }
            let individual: u64 = deficit(&drags_in, &units, feerate);
            entries.push(Entry { candidate, drags_in, individual });
            k = k + 1;
        }
        let table = BumpTable { feerate, units, entries };
        proof {
            let list = Seq::new(table@.entries.len(), |k: int| table@.entries[k].0);
            assert(list =~= candidates@);
            table.deficit_of(all);
            assert forall|i: int, j: int| 0 <= i < j < table@.entries.len() implies (
            #[trigger] table@.entries[i]).0 < (#[trigger] table@.entries[j]).0 by {
                assert(candidates@[i] < candidates@[j]);
                assert(entries@[i].candidate == candidates@[i]);
                assert(entries@[j].candidate == candidates@[j]);
            }
            assert forall|k: int| 0 <= k < table@.entries.len() implies (
            #[trigger] table@.entries[k]).1.len() == table@.units.len() by {
                assert(entries@[k].drags_in@.len() == units@.len());
            }
            assert forall|k: int| 0 <= k < table.entries@.len() implies (
            #[trigger] table.entries@[k]).individual == table@.deficit(table.entries@[k].drags_in@) by {
                assert(entries@[k].candidate == candidates@[k]);
                table.deficit_of(entries@[k].drags_in@);
            }
            assert forall|picked: spec_fn(usize) -> bool| #[trigger]
                table@.owed(picked) == cluster@.owed(feerate, picked) by {
                table.owed_by_cluster(view, mined@, unit_of_tx@, picked);
            }
        }
        table
    }

    /// What a table charges is what the transactions left behind lack.
    proof fn owed_by_cluster(
        &self,
        view: ClusterView,
        mined: Seq<bool>,
        unit_of_tx: Seq<usize>,
        picked: spec_fn(usize) -> bool,
    )
        requires
            mined == view.mined_at(self.feerate),
            mined.len() == view.n(),
            numbered(view, mined, self.units@, unit_of_tx, view.n()),
            view.lists_candidates(
                Seq::new(self@.entries.len(), |k: int| self@.entries[k].0),
            ),
            forall|i: int|
                0 <= i < self.entries@.len() ==> {
                    let entry = #[trigger] self.entries@[i];
                    forall|t: int|
                        0 <= t < view.n() && !mined[t] ==> entry.drags_in@[#[trigger] rank(mined, t)]
                            == view.package(cluster_graph::only(entry.candidate))[t]
                },
        ensures
            self@.owed(picked) == view.owed(self.feerate, picked),
    {
        let union = self@.union(picked);
        let txs = view.left_behind(self.feerate, picked);
        let list = Seq::new(self@.entries.len(), |k: int| self@.entries[k].0);
        assert forall|t: int| 0 <= t < view.n() implies #[trigger] txs[t] == (!mined[t]
            && union[rank(mined, t)]) by {
            if !mined[t] {
                rank_steps(mined, t, view.n());
                let u = rank(mined, t);
                if view.package(picked)[t] {
                    let i = choose|i: int|
                        0 <= i < view.spends.len() && picked((#[trigger] view.spends[i]).0)
                            && cluster_graph::is_ancestor(view.txs, view.spends[i].1 as int, t);
                    let c = view.spends[i].0;
                    assert(view.is_spent_by(c));
                    let k = choose|k: int| 0 <= k < list.len() && list[k] == c;
                    assert(self.entries@[k].candidate == c);
                    assert(view.package(cluster_graph::only(c))[t]) by {
                        assert(cluster_graph::only(c)(view.spends[i].0));
                    }
                    assert(self.entries@[k].drags_in@[rank(mined, t)]);
                    assert(picked(self@.entries[k].0) && self@.entries[k].1[u]);
                }
                if union[u] {
                    let k = choose|k: int|
                        0 <= k < self@.entries.len() && picked((#[trigger] self@.entries[k]).0)
                            && self@.entries[k].1[u];
                    let c = self.entries@[k].candidate;
                    assert(self.entries@[k].drags_in@[rank(mined, t)]);
                    assert(view.package(cluster_graph::only(c))[t]);
                    let i = choose|i: int|
                        0 <= i < view.spends.len() && cluster_graph::only(c)(
                            (#[trigger] view.spends[i]).0,
                        ) && cluster_graph::is_ancestor(view.txs, view.spends[i].1 as int, t);
                    assert(picked(view.spends[i].0));
                }
            }
        }
        unit_sums(view, mined, self.units@, unit_of_tx, union, txs);
        self.deficit_of(union);
    }
}

} // verus!
