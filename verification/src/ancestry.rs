//! Problems whose candidates spend unconfirmed transactions.
use crate::bitset;
use crate::bitset::Bitset;
use crate::candidate::Candidate;
use crate::cluster_graph;
use crate::cluster_graph::TxView;
use crate::selection_problem::SelectionProblem;
use crate::sums;
use crate::target::Target;
use vstd::prelude::*;
use vstd::std_specs::cmp::PartialEqSpec;

verus! {

/// An input that can be spent, with the transaction that it resides in.
#[derive(Debug, Clone, Copy)]
pub struct Input<T> {
    /// The value of the output that is spent.
    pub value: u64,
    /// The weight of the input.
    pub weight: u64,
    /// Whether the input is segwit.
    pub is_segwit: bool,
    /// The transaction whose output is spent. Where that is none of the ancestors, it is confirmed.
    pub residing_txid: T,
}

/// An unconfirmed transaction that may need bumping.
#[derive(Debug)]
pub struct AncestorToBump<T> {
    /// What the transaction is known by.
    pub txid: T,
    /// Its weight.
    pub weight: u64,
    /// The fee it pays.
    pub fee: u64,
    /// Its *direct* parents. Those that are none of the ancestors are confirmed.
    pub parents: Vec<T>,
}

/// Whether `==` on `T` is equality.
pub open spec fn lawful_eq<T: PartialEq>() -> bool {
    &&& T::obeys_eq_spec()
    &&& forall|x: T, y: T| #[trigger] x.eq_spec(&y) == (x == y)
}

/// Whether ancestor `i` is the first one that is known by `txid`.
pub open spec fn resolves<T>(ancestors: Seq<AncestorToBump<T>>, txid: T, i: int) -> bool {
    &&& 0 <= i < ancestors.len()
    &&& ancestors[i].txid == txid
    &&& forall|j: int| 0 <= j < i ==> (#[trigger] ancestors[j]).txid != txid
}

/// The ancestor that is known by `txid`, if there is one.
pub open spec fn position<T>(ancestors: Seq<AncestorToBump<T>>, txid: T) -> Option<int> {
    if exists|i: int| resolves(ancestors, txid, i) {
        Some(choose|i: int| resolves(ancestors, txid, i))
    } else {
        None
    }
}

/// The ancestors that are known by the given names. Names of no ancestor are left out.
pub open spec fn positions<T>(ancestors: Seq<AncestorToBump<T>>, txids: Seq<T>) -> Seq<usize>
    decreases txids.len(),
{
    if txids.len() == 0 {
        Seq::empty()
    } else {
        let rest = positions(ancestors, txids.drop_last());
        match position(ancestors, txids.last()) {
            Some(i) => rest.push(i as usize),
            None => rest,
        }
    }
}

/// The graph of the ancestors.
pub open spec fn graph<T>(ancestors: Seq<AncestorToBump<T>>) -> Seq<TxView> {
    Seq::new(
        ancestors.len(),
        |i: int|
            TxView {
                weight: ancestors[i].weight,
                fee: ancestors[i].fee,
                parents: positions(ancestors, ancestors[i].parents@),
            },
    )
}

/// The names of the transactions that a group of inputs resides in.
pub open spec fn residing<T>(group: Seq<Input<T>>) -> Seq<T> {
    Seq::new(group.len(), |k: int| group[k].residing_txid)
}

/// Whether ancestor `a` is one of `starts` or an ancestor of one.
pub open spec fn reached(txs: Seq<TxView>, starts: Seq<usize>, a: int) -> bool {
    exists|k: int|
        0 <= k < starts.len() && cluster_graph::is_ancestor(txs, #[trigger] starts[k] as int, a)
}

/// For each ancestor, whether spending the group of inputs drags it in.
pub open spec fn dragged_by_group<T>(
    ancestors: Seq<AncestorToBump<T>>,
    group: Seq<Input<T>>,
) -> Seq<bool> {
    Seq::new(
        ancestors.len(),
        |a: int| reached(graph(ancestors), positions(ancestors, residing(group)), a),
    )
}

/// The value of a group of inputs.
pub open spec fn group_value<T>(group: Seq<Input<T>>) -> int {
    sums::sum(group.len() as int, |k: int| group[k].value as int)
}

/// The weight of a group of inputs.
pub open spec fn group_weight<T>(group: Seq<Input<T>>) -> int {
    sums::sum(group.len() as int, |k: int| group[k].weight as int)
}

/// How many inputs of a group are segwit.
pub open spec fn group_segwit<T>(group: Seq<Input<T>>) -> int {
    sums::sum(group.len() as int, |k: int| if group[k].is_segwit { 1int } else { 0 })
}

/// Whether a candidate stands for a group of inputs.
pub open spec fn is_group<T>(candidate: Candidate, group: Seq<Input<T>>) -> bool {
    &&& candidate.value == group_value(group)
    &&& candidate.weight == group_weight(group)
    &&& candidate.segwit_count == group_segwit(group)
    &&& candidate.legacy_count == group.len() - group_segwit(group)
}

/// What resolves is the position.
pub proof fn position_unique<T>(ancestors: Seq<AncestorToBump<T>>, txid: T, i: int)
    requires
        resolves(ancestors, txid, i),
    ensures
        position(ancestors, txid) == Some(i),
{
    let j = choose|j: int| resolves(ancestors, txid, j);
    if i < j {
        assert(ancestors[i].txid != txid);
    }
    if j < i {
        assert(ancestors[j].txid != txid);
    }
}

/// Positions are within bounds.
pub proof fn positions_in_bounds<T>(ancestors: Seq<AncestorToBump<T>>, txids: Seq<T>)
    requires
        ancestors.len() <= usize::MAX,
    ensures
        forall|k: int|
            0 <= k < positions(ancestors, txids).len() ==> #[trigger] positions(ancestors, txids)[k]
                < ancestors.len(),
    decreases txids.len(),
{
    if txids.len() > 0 {
        positions_in_bounds(ancestors, txids.drop_last());
        let rest = positions(ancestors, txids.drop_last());
        if let Some(i) = position(ancestors, txids.last()) {
            assert(resolves(ancestors, txids.last(), i));
            assert(positions(ancestors, txids) == rest.push(i as usize));
        } else {
            assert(positions(ancestors, txids) == rest);
        }
    }
}

/// The ancestor that is known by `txid`, if there is one.
fn find<T: PartialEq>(ancestors: &Vec<AncestorToBump<T>>, txid: &T) -> (r: Option<usize>)
    requires
        lawful_eq::<T>(),
    ensures
        match r {
            Some(i) => position(ancestors@, *txid) == Some(i as int),
            None => position(ancestors@, *txid) is None,
        },
{
    let mut i: usize = 0;
    while i < ancestors.len()
        invariant
            lawful_eq::<T>(),
            i <= ancestors@.len(),
            forall|j: int| 0 <= j < i ==> (#[trigger] ancestors@[j]).txid != *txid,
        decreases ancestors@.len() - i,
    {
        if ancestors[i].txid == *txid {
            proof {
                assert(resolves(ancestors@, *txid, i as int));
                position_unique(ancestors@, *txid, i as int);
            }
            return Some(i);
        }
        i = i + 1;
    }
    None
}

/// The ancestors that are known by the given names.
fn find_all<T: PartialEq>(ancestors: &Vec<AncestorToBump<T>>, txids: &Vec<T>) -> (r: Vec<usize>)
    requires
        lawful_eq::<T>(),
    ensures
        r@ == positions(ancestors@, txids@),
{
    let mut found: Vec<usize> = Vec::new();
    let mut k: usize = 0;
    while k < txids.len()
        invariant
            lawful_eq::<T>(),
            k <= txids@.len(),
            found@ == positions(ancestors@, txids@.take(k as int)),
        decreases txids@.len() - k,
    {
        proof {
            assert(txids@.take(k + 1).drop_last() =~= txids@.take(k as int));
        }
        if let Some(i) = find(ancestors, &txids[k]) {
            found.push(i);
        }
        k = k + 1;
    }
    proof {
        assert(txids@.take(k as int) =~= txids@);
    }
    found
}

/// The ancestors that a group of inputs resides in.
fn find_residing<T: PartialEq>(ancestors: &Vec<AncestorToBump<T>>, group: &Vec<Input<T>>) -> (r: Vec<
    usize,
>)
    requires
        lawful_eq::<T>(),
    ensures
        r@ == positions(ancestors@, residing(group@)),
{
    let ghost names = residing(group@);
    let mut found: Vec<usize> = Vec::new();
    let mut k: usize = 0;
    while k < group.len()
        invariant
            lawful_eq::<T>(),
            names == residing(group@),
            k <= group@.len(),
            found@ == positions(ancestors@, names.take(k as int)),
        decreases group@.len() - k,
    {
        proof {
            assert(names.take(k + 1).drop_last() =~= names.take(k as int));
        }
        if let Some(i) = find(ancestors, &group[k].residing_txid) {
            found.push(i);
        }
        k = k + 1;
    }
    proof {
        assert(names.take(k as int) =~= names);
    }
    found
}

/// A set that holds `start` and the parents of all it holds has all ancestors of `start`.
pub proof fn closed_has_ancestors(txs: Seq<TxView>, set: Seq<bool>, path: Seq<int>)
    requires
        set.len() == txs.len(),
        cluster_graph::is_path(txs, path),
        set[path[0]],
        forall|t: int, k: int|
            0 <= t < txs.len() && set[t] && 0 <= k < txs[t].parents.len()
                ==> set[#[trigger] txs[t].parents[k] as int],
    ensures
        set[path.last()],
    decreases path.len(),
{
    if path.len() >= 2 {
        assert(cluster_graph::is_parent(txs, path[0], path[1]));
        let k = choose|k: int|
            0 <= k < txs[path[0]].parents.len() && #[trigger] txs[path[0]].parents[k] == path[1];
        assert(0 <= path[0] < txs.len());
        assert(set[txs[path[0]].parents[k] as int]);
        cluster_graph::path_tail(txs, path);
        closed_has_ancestors(txs, set, path.skip(1));
    }
}

/// What is reached from `starts` by going from parent to parent.
fn reach(parents: &Vec<Vec<usize>>, starts: &Vec<usize>, Ghost(txs): Ghost<Seq<TxView>>) -> (set:
    Bitset)
    requires
        txs.len() == parents@.len(),
        forall|t: int| 0 <= t < txs.len() ==> (#[trigger] txs[t]).parents == parents@[t]@,
        cluster_graph::parents_in_bounds(txs),
        forall|k: int| 0 <= k < starts@.len() ==> #[trigger] starts@[k] < txs.len(),
    ensures
        set@ == Seq::new(txs.len(), |a: int| reached(txs, starts@, a)),
{
    let n: usize = parents.len();
    let mut set: Bitset = Bitset::with_capacity(n);
    let mut stack: Vec<usize> = Vec::new();
    let mut k: usize = 0;
    while k < starts.len()
        invariant
            k <= starts@.len(),
            stack@ == starts@.take(k as int),
        decreases starts@.len() - k,
    {
        stack.push(starts[k]);
        proof {
            assert(stack@ =~= starts@.take(k + 1));
        }
        k = k + 1;
    }
    proof {
        assert(stack@ =~= starts@);
        assert forall|k: int| 0 <= k < stack@.len() implies reached(
            txs,
            starts@,
            #[trigger] stack@[k] as int,
        ) by {
            cluster_graph::ancestor_reflexive(txs, starts@[k] as int);
        }
    }
    loop
        invariant
            n == txs.len(),
            txs.len() == parents@.len(),
            forall|t: int| 0 <= t < txs.len() ==> (#[trigger] txs[t]).parents == parents@[t]@,
            cluster_graph::parents_in_bounds(txs),
            set@.len() == n,
            forall|k: int|
                0 <= k < stack@.len() ==> #[trigger] stack@[k] < n && reached(
                    txs,
                    starts@,
                    stack@[k] as int,
                ),
            forall|a: int| 0 <= a < n && #[trigger] set@[a] ==> reached(txs, starts@, a),
            forall|k: int|
                0 <= k < starts@.len() ==> #[trigger] starts@[k] < n && (set@[starts@[k] as int]
                    || stack@.contains(starts@[k])),
            forall|t: int, k: int|
                0 <= t < n && set@[t] && 0 <= k < txs[t].parents.len()
                    ==> set@[#[trigger] txs[t].parents[k] as int] || stack@.contains(
                    txs[t].parents[k],
                ),
        ensures
            stack@.len() == 0,
        decreases n - bitset::size(set@), stack@.len(),
    {
        let ghost before = stack@;
        let ghost had = set@;
        let tx: usize = match stack.pop() {
            Some(tx) => tx,
            None => {
                break;
            },
        };
        assert(before[before.len() - 1] == tx);
        assert(forall|x: usize| before.contains(x) && x != tx ==> stack@.contains(x)) by {
            assert forall|x: usize| before.contains(x) && x != tx implies stack@.contains(x) by {
                let k = choose|k: int| 0 <= k < before.len() && before[k] == x;
                assert(stack@[k] == x);
            }
        }
        if !set.contains(tx) {
            set.insert(tx);
            proof {
                bitset::size_insert(had, tx as int);
                bitset::size_bounded(set@, set@);
            }
            let ghost rest = stack@;
            let mut p: usize = 0;
            while p < parents[tx].len()
                invariant
                    n == txs.len(),
                    tx < n,
                    txs.len() == parents@.len(),
                    txs[tx as int].parents == parents@[tx as int]@,
                    cluster_graph::parents_in_bounds(txs),
                    reached(txs, starts@, tx as int),
                    p <= parents@[tx as int]@.len(),
                    forall|k: int|
                        0 <= k < stack@.len() ==> #[trigger] stack@[k] < n && reached(
                            txs,
                            starts@,
                            stack@[k] as int,
                        ),
                    forall|x: usize| rest.contains(x) ==> #[trigger] stack@.contains(x),
                    forall|i: int|
                        0 <= i < p ==> stack@.contains(#[trigger] txs[tx as int].parents[i]),
                decreases parents@[tx as int]@.len() - p,
            {
                let parent: usize = parents[tx][p];
                let ghost prior = stack@;
                proof {
                    assert(txs[tx as int].parents[p as int] == parent);
                    let k = choose|k: int|
                        0 <= k < starts@.len() && cluster_graph::is_ancestor(
                            txs,
                            #[trigger] starts@[k] as int,
                            tx as int,
                        );
                    cluster_graph::ancestor_reflexive(txs, parent as int);
                    assert(cluster_graph::is_parent(txs, tx as int, parent as int));
                    cluster_graph::ancestor_by_parent(
                        txs,
                        tx as int,
                        parent as int,
                        parent as int,
                    );
                    cluster_graph::ancestor_transitive(
                        txs,
                        starts@[k] as int,
                        tx as int,
                        parent as int,
                    );
                    assert(reached(txs, starts@, parent as int));
                }
                stack.push(parent);
                proof {
                    assert forall|x: usize| prior.contains(x) implies #[trigger] stack@.contains(x) by {
                        let i = choose|i: int| 0 <= i < prior.len() && prior[i] == x;
                        assert(stack@[i] == x);
                    }
                    assert(stack@[prior.len() as int] == parent);
                }
                p = p + 1;
            }
        } else {
            proof {
                assert(set@ == had);
            }
        }
        proof {
            assert forall|t: int, k: int|
                0 <= t < n && set@[t] && 0 <= k < txs[t].parents.len() implies set@[
                #[trigger] txs[t].parents[k] as int
            ] || stack@.contains(txs[t].parents[k]) by {
                if t != tx {
                    assert(had[t]);
                    assert(had[txs[t].parents[k] as int] || before.contains(txs[t].parents[k]));
                }
            }
        }
    }
    proof {
        assert forall|a: int| 0 <= a < n implies set@[a] == reached(txs, starts@, a) by {
            if reached(txs, starts@, a) {
                let k = choose|k: int|
                    0 <= k < starts@.len() && cluster_graph::is_ancestor(
                        txs,
                        #[trigger] starts@[k] as int,
                        a,
                    );
                let path = choose|path: Seq<int>| #[trigger]
                    cluster_graph::is_path(txs, path) && path[0] == starts@[k] && path.last() == a;
                closed_has_ancestors(txs, set@, path);
            }
        }
        assert(set@ =~= Seq::new(txs.len(), |a: int| reached(txs, starts@, a)));
    }
    set
}

/// The candidate that stands for a group of inputs that are spent together.
fn group_candidate<T>(group: &Vec<Input<T>>) -> (r: Candidate)
    requires
        group_value(group@) <= u64::MAX,
        group_weight(group@) <= u64::MAX,
    ensures
        is_group(r, group@),
{
    let ghost n = group@.len() as int;
    let ghost value_at = |k: int| group@[k].value as int;
    let ghost weight_at = |k: int| group@[k].weight as int;
    let ghost segwit_at = |k: int| if group@[k].is_segwit { 1int } else { 0 };
    let mut value: u64 = 0;
    let mut weight: u64 = 0;
    let mut segwit_count: usize = 0;
    let mut k: usize = 0;
    while k < group.len()
        invariant
            n == group@.len(),
            value_at == (|k: int| group@[k].value as int),
            weight_at == (|k: int| group@[k].weight as int),
            segwit_at == (|k: int| if group@[k].is_segwit { 1int } else { 0 }),
            sums::sum(n, value_at) <= u64::MAX,
            sums::sum(n, weight_at) <= u64::MAX,
            k <= n,
            value == sums::sum(k as int, value_at),
            weight == sums::sum(k as int, weight_at),
            segwit_count <= k,
            segwit_count == sums::sum(k as int, segwit_at),
        decreases n - k,
    {
        proof {
            sums::lemma_sum_prefix(k + 1, n, value_at);
            sums::lemma_sum_prefix(k + 1, n, weight_at);
        }
        value = value + group[k].value;
        weight = weight + group[k].weight;
        if group[k].is_segwit {
            segwit_count = segwit_count + 1;
        }
        k = k + 1;
    }
    Candidate { value, weight, segwit_count, legacy_count: group.len() - segwit_count }
}

/// The weight and fee of each ancestor.
pub open spec fn weights_and_fees<T>(ancestors: Seq<AncestorToBump<T>>) -> Seq<(u64, u64)> {
    Seq::new(ancestors.len(), |a: int| (ancestors[a].weight, ancestors[a].fee))
}

/// Whether ancestors are few enough to be numbered, and their weights and fees can be summed.
pub open spec fn ancestors_fit<T>(ancestors: Seq<AncestorToBump<T>>) -> bool {
    &&& ancestors.len() <= u32::MAX
    &&& sums::sum(ancestors.len() as int, |a: int| ancestors[a].weight as int) <= u64::MAX
    &&& sums::sum(ancestors.len() as int, |a: int| ancestors[a].fee as int) <= u64::MAX
}

impl SelectionProblem {
    /// A problem over groups of inputs, some of which spend unconfirmed transactions.
    ///
    /// Each group becomes one candidate, which drags in the ancestors that its inputs reside in and
    /// their ancestors in turn. A transaction that is none of `ancestors` is confirmed. Where two
    /// ancestors are known by the same name, the first one is meant.
    pub fn new<T: PartialEq>(
        target: Target,
        inputs: Vec<Vec<Input<T>>>,
        ancestors: Vec<AncestorToBump<T>>,
    ) -> (r: SelectionProblem)
        requires
            lawful_eq::<T>(),
            ancestors_fit(ancestors@),
            forall|c: int|
                0 <= c < inputs@.len() ==> group_value(#[trigger] inputs@[c]@) <= u64::MAX
                    && group_weight(inputs@[c]@) <= u64::MAX,
        ensures
            r.inv(),
            r@.target == target,
            r@.ancestors == weights_and_fees(ancestors@),
            r@.n() == inputs@.len(),
            forall|c: int|
                0 <= c < inputs@.len() ==> is_group(
                    #[trigger] r@.candidates[c],
                    inputs@[c]@,
                ),
            forall|c: int|
                0 <= c < inputs@.len() ==> #[trigger] r@.drags[c] == dragged_by_group(
                    ancestors@,
                    inputs@[c]@,
                ),
    {
        let ghost txs = graph(ancestors@);
        let ghost m = ancestors@.len();
        let mut parents: Vec<Vec<usize>> = Vec::new();
        let mut sizes: Vec<(u64, u64)> = Vec::new();
        while parents.len() < ancestors.len()
            invariant
                lawful_eq::<T>(),
                txs == graph(ancestors@),
                m == ancestors@.len(),
                parents@.len() <= m,
                sizes@ == weights_and_fees(ancestors@).take(parents@.len() as int),
                forall|t: int|
                    0 <= t < parents@.len() ==> #[trigger] parents@[t]@ == txs[t].parents,
            decreases m - parents@.len(),
        {
            let t: usize = parents.len();
            sizes.push((ancestors[t].weight, ancestors[t].fee));
            parents.push(find_all(&ancestors, &ancestors[t].parents));
            proof {
                assert(sizes@ =~= weights_and_fees(ancestors@).take(t + 1));
            }
        }
        proof {
            assert(sizes@ =~= weights_and_fees(ancestors@));
            sums::lemma_sum_ext(
                m as int,
                |a: int| ancestors@[a].weight as int,
                |a: int| sizes@[a].0 as int,
            );
            sums::lemma_sum_ext(
                m as int,
                |a: int| ancestors@[a].fee as int,
                |a: int| sizes@[a].1 as int,
            );
            assert forall|t: int, k: int|
                0 <= t < txs.len() && 0 <= k < txs[t].parents.len() implies #[trigger] txs[t].parents[k]
                < txs.len() by {
                positions_in_bounds(ancestors@, ancestors@[t].parents@);
            }
        }
        let mut candidates: Vec<Candidate> = Vec::new();
        let mut rows: Vec<Bitset> = Vec::new();
        while rows.len() < inputs.len()
            invariant
                lawful_eq::<T>(),
                txs == graph(ancestors@),
                m == ancestors@.len(),
                m <= u32::MAX,
                cluster_graph::parents_in_bounds(txs),
                parents@.len() == m,
                forall|t: int| 0 <= t < m ==> #[trigger] parents@[t]@ == txs[t].parents,
                forall|c: int|
                    0 <= c < inputs@.len() ==> group_value(#[trigger] inputs@[c]@) <= u64::MAX
                        && group_weight(inputs@[c]@) <= u64::MAX,
                rows@.len() <= inputs@.len(),
                candidates@.len() == rows@.len(),
                forall|c: int|
                    0 <= c < rows@.len() ==> is_group(#[trigger] candidates@[c], inputs@[c]@),
                forall|c: int|
                    0 <= c < rows@.len() ==> #[trigger] rows@[c]@ == dragged_by_group(
                        ancestors@,
                        inputs@[c]@,
                    ),
            decreases inputs@.len() - rows@.len(),
        {
            let c: usize = rows.len();
            let group: &Vec<Input<T>> = &inputs[c];
            candidates.push(group_candidate(group));
            let starts: Vec<usize> = find_residing(&ancestors, group);
            proof {
                positions_in_bounds(ancestors@, residing(group@));
            }
            let row: Bitset = reach(&parents, &starts, Ghost(txs));
            proof {
                assert(row@ =~= dragged_by_group(ancestors@, group@));
            }
            rows.push(row);
        }
        SelectionProblem::from_drags(target, candidates, sizes, &rows)
    }
}

} // verus!
