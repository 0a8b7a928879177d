//! The unconfirmed transactions that matter to a selection.
use crate::bitset;
use crate::bitset::Bitset;
use crate::cluster_graph;
use crate::cluster_graph::{ClusterView, TxView};
use crate::feerate;
use crate::feerate::FeeRate;
use crate::sums;
use vstd::prelude::*;

verus! {

/// An unconfirmed transaction in a [`Cluster`].
#[derive(Debug)]
pub struct MempoolTx {
    /// Weight in weight units.
    pub weight: u64,
    /// Fee paid, in satoshis.
    pub fee: u64,
    /// The *direct* parents, as indices into the list of the [`Cluster`]'s transactions. What
    /// follows from them is computed.
    pub parents: Vec<usize>,
}

impl View for MempoolTx {
    type V = TxView;

    open spec fn view(&self) -> TxView {
        TxView { weight: self.weight, fee: self.fee, parents: self.parents@ }
    }
}

/// The views of transactions.
pub open spec fn views(txs: Seq<MempoolTx>) -> Seq<TxView> {
    Seq::new(txs.len(), |i: int| txs[i]@)
}

/// Why a [`Cluster`] cannot be built.
#[derive(Debug, Clone, Copy, PartialEq, Eq, Structural)]
pub enum ClusterError {
    /// A parent is not a transaction of the cluster.
    ParentOutOfBounds {
        /// The transaction that names the parent.
        tx: usize,
        /// The index that is out of bounds.
        parent: usize,
    },
    /// A candidate spends a transaction that is not in the cluster.
    SpendOutOfBounds {
        /// The candidate index.
        candidate: usize,
        /// The index that is out of bounds.
        tx: usize,
    },
    /// The parents go round in a cycle. Those of real transactions do not.
    Cycle {
        /// A transaction on the cycle.
        tx: usize,
    },
}

/// Whether the closures of all transactions that are done are complete.
spec fn finished(txs: Seq<TxView>, done: Seq<bool>, closures: Seq<Bitset>) -> bool {
    forall|t: int|
        0 <= t < txs.len() && #[trigger] done[t] ==> {
            &&& !cluster_graph::on_cycle(txs, t)
            &&& forall|a: int|
                0 <= a < txs.len() ==> #[trigger] closures[t]@[a] == cluster_graph::is_ancestor(
                    txs,
                    t,
                    a,
                )
            &&& forall|a: int| #[trigger] cluster_graph::is_ancestor(txs, t, a) ==> done[a]
        }
}

/// How many parents of the transaction at depth `k` of the stack have been dealt with.
spec fn dealt_with(stack: Seq<(usize, usize)>, k: int) -> int {
    if k == stack.len() - 1 {
        stack[k].1 as int
    } else {
        stack[k].1 - 1
    }
}

/// Whether the transaction at depth `k` of the stack is waiting for the one above it.
spec fn waits(txs: Seq<TxView>, stack: Seq<(usize, usize)>, k: int) -> bool {
    &&& stack[k].1 >= 1
    &&& txs[stack[k].0 as int].parents[stack[k].1 - 1] == stack[k + 1].0
}

/// Whether the stack is a path of transactions that are not done, each the parent that the one
/// before it is waiting for.
spec fn stacked(
    txs: Seq<TxView>,
    done: Seq<bool>,
    on_stack: Seq<bool>,
    stack: Seq<(usize, usize)>,
) -> bool {
    &&& forall|k: int|
        0 <= k < stack.len() ==> {
            let (tx, next) = #[trigger] stack[k];
            tx < txs.len() && next <= txs[tx as int].parents.len() && !done[tx as int]
                && on_stack[tx as int]
        }
    &&& forall|i: int, j: int|
        0 <= i < j < stack.len() ==> (#[trigger] stack[i]).0 != (#[trigger] stack[j]).0
    &&& forall|t: int|
        0 <= t < txs.len() && #[trigger] on_stack[t] ==> exists|k: int|
            0 <= k < stack.len() && (#[trigger] stack[k]).0 == t
    &&& forall|k: int| 0 <= k < stack.len() - 1 ==> #[trigger] waits(txs, stack, k)
    &&& forall|k: int, p: int|
        0 <= k < stack.len() && 0 <= p < dealt_with(stack, k)
            ==> done[#[trigger] txs[stack[k].0 as int].parents[p] as int]
}

/// A stack that meets a parent which is on it already has found a cycle.
proof fn stack_cycle(
    txs: Seq<TxView>,
    done: Seq<bool>,
    on_stack: Seq<bool>,
    stack: Seq<(usize, usize)>,
    parent: usize,
)
    requires
        stacked(txs, done, on_stack, stack),
        stack.len() > 0,
        stack.last().1 < txs[stack.last().0 as int].parents.len(),
        txs[stack.last().0 as int].parents[stack.last().1 as int] == parent,
        parent < txs.len(),
        on_stack[parent as int],
    ensures
        cluster_graph::on_cycle(txs, parent as int),
{
    let first = choose|k: int| 0 <= k < stack.len() && (#[trigger] stack[k]).0 == parent;
    let n = stack.len() - first;
    let path = Seq::new(
        (n + 1) as nat,
        |i: int| if i < n { stack[first + i].0 as int } else { parent as int },
    );
    assert forall|i: int| 0 <= i < path.len() implies 0 <= #[trigger] path[i] < txs.len() by {
        if i < n {
            assert(stack[first + i].0 < txs.len());
        }
    }
    assert forall|i: int, j: int| 0 <= i && j == i + 1 && j < path.len() implies cluster_graph::is_parent(
        txs,
        #[trigger] path[i],
        #[trigger] path[j],
    ) by {
        let (x, y) = (first + i, first + j);
        assert(stack[x].0 < txs.len());
        if j < n {
            assert(waits(txs, stack, x));
            assert(stack[x].1 <= txs[stack[x].0 as int].parents.len());
            assert(txs[path[i]].parents[stack[x].1 - 1] == path[j]);
        } else {
            assert(txs[path[i]].parents[stack[x].1 as int] == path[j]);
        }
    }
    assert(cluster_graph::is_path(txs, path) && path.len() >= 2 && path[0] == parent as int
        && path.last() == parent as int);
}

/// The ancestors of a transaction whose parents are done are it and what their closures hold, and
/// it is not on a cycle.
proof fn closure_from_parents(
    txs: Seq<TxView>,
    done: Seq<bool>,
    closures: Seq<Bitset>,
    tx: int,
    closure: Seq<bool>,
)
    requires
        cluster_graph::parents_in_bounds(txs),
        finished(txs, done, closures),
        0 <= tx < txs.len(),
        !done[tx],
        forall|p: int|
            0 <= p < txs[tx].parents.len() ==> done[#[trigger] txs[tx].parents[p] as int],
        closure.len() == txs.len(),
        forall|a: int|
            0 <= a < txs.len() ==> #[trigger] closure[a] == (a == tx || exists|p: int|
                0 <= p < txs[tx].parents.len() && closures[#[trigger] txs[tx].parents[p] as int]@[a]),
    ensures
        !cluster_graph::on_cycle(txs, tx),
        forall|a: int|
            0 <= a < txs.len() ==> #[trigger] closure[a] == cluster_graph::is_ancestor(txs, tx, a),
        forall|a: int| #[trigger]
            cluster_graph::is_ancestor(txs, tx, a) ==> a == tx || done[a],
{
    assert forall|a: int| #[trigger] cluster_graph::is_ancestor(txs, tx, a) implies (a == tx
        || done[a]) && 0 <= a < txs.len() && closure[a] by {
        let parent = cluster_graph::ancestor_cases(txs, tx, a);
        if a != tx {
            let p = choose|p: int|
                0 <= p < txs[tx].parents.len() && #[trigger] txs[tx].parents[p] == parent;
            assert(done[txs[tx].parents[p] as int]);
            assert(closures[txs[tx].parents[p] as int]@[a]);
        }
    }
    assert forall|a: int| 0 <= a < txs.len() && #[trigger] closure[a] implies cluster_graph::is_ancestor(
        txs,
        tx,
        a,
    ) by {
        if a == tx {
            cluster_graph::ancestor_reflexive(txs, tx);
        } else {
            let p = choose|p: int|
                0 <= p < txs[tx].parents.len() && closures[#[trigger] txs[tx].parents[p] as int]@[a];
            let parent = txs[tx].parents[p] as int;
            assert(done[parent]);
            assert(closures[parent]@[a]);
            cluster_graph::ancestor_by_parent(txs, tx, parent, a);
        }
    }
    if cluster_graph::on_cycle(txs, tx) {
        let parent = cluster_graph::cycle_by_parent(txs, tx);
        let p = choose|p: int|
            0 <= p < txs[tx].parents.len() && #[trigger] txs[tx].parents[p] == parent;
        assert(done[txs[tx].parents[p] as int]);
        assert(done[tx]);
    }
}

/// For each transaction, the set that holds it and all its ancestors.
fn ancestor_closures(txs: &Vec<MempoolTx>) -> (r: Result<Vec<Bitset>, ClusterError>)
    requires
        cluster_graph::parents_in_bounds(views(txs@)),
    ensures
        match r {
            Ok(closures) => {
                &&& closures@.len() == txs@.len()
                &&& forall|t: int|
                    0 <= t < txs@.len() ==> #[trigger] closures@[t]@ == Seq::new(
                        txs@.len(),
                        |a: int| cluster_graph::is_ancestor(views(txs@), t, a),
                    )
                &&& forall|t: int|
                    0 <= t < txs@.len() ==> !#[trigger] cluster_graph::on_cycle(views(txs@), t)
            },
            Err(ClusterError::Cycle { tx }) => tx < txs@.len() && cluster_graph::on_cycle(
                views(txs@),
                tx as int,
            ),
            Err(_) => false,
        },
{
    let n: usize = txs.len();
    let ghost v = views(txs@);
    let mut closures: Vec<Bitset> = Vec::new();
    while closures.len() < n
        invariant
            closures@.len() <= n,
            forall|t: int| 0 <= t < closures@.len() ==> #[trigger] closures@[t]@.len() == n,
        decreases n - closures@.len(),
    {
        closures.push(Bitset::with_capacity(n));
    }

    // Depth first, parents before children: a transaction's closure is itself and the union of its
    // parents'. `done` marks a finished closure, `on_stack` catches a cycle.
    let mut done: Bitset = Bitset::with_capacity(n);
    let mut on_stack: Bitset = Bitset::with_capacity(n);
    let mut stack: Vec<(usize, usize)> = Vec::new();
    let mut root: usize = 0;
    while root < n
        invariant
            n == txs@.len(),
            v == views(txs@),
            cluster_graph::parents_in_bounds(v),
            closures@.len() == n,
            forall|t: int| 0 <= t < n ==> #[trigger] closures@[t]@.len() == n,
            done@.len() == n,
            on_stack@.len() == n,
            finished(v, done@, closures@),
            stacked(v, done@, on_stack@, stack@),
            stack@.len() == 0,
            root <= n,
            forall|t: int| 0 <= t < root ==> #[trigger] done@[t],
        decreases n - root,
    {
        if !done.contains(root) {
            proof {
                assert forall|t: int| 0 <= t < n implies !#[trigger] on_stack@[t] by {
                    if on_stack@[t] {
                        let k = choose|k: int| 0 <= k < stack@.len() && (#[trigger] stack@[k]).0 == t;
                    }
                }
            }
            stack.push((root, 0));
            on_stack.insert(root);
            proof {
                assert(stack@[0].0 == root);
            }
            while stack.len() > 0
                invariant
                    n == txs@.len(),
                    v == views(txs@),
                    cluster_graph::parents_in_bounds(v),
                    closures@.len() == n,
                    forall|t: int| 0 <= t < n ==> #[trigger] closures@[t]@.len() == n,
                    done@.len() == n,
                    on_stack@.len() == n,
                    finished(v, done@, closures@),
                    stacked(v, done@, on_stack@, stack@),
                    root < n,
                    done@[root as int] || (stack@.len() > 0 && stack@[0].0 == root),
                    forall|t: int| 0 <= t < root ==> #[trigger] done@[t],
                decreases
                    n - bitset::size(
                        Seq::new(n as nat, |t: int| done@[t] || on_stack@[t]),
                    ),
                    stack@.len(),
                    (if stack@.len() > 0 {
                        v[stack@.last().0 as int].parents.len() - stack@.last().1
                    } else {
                        0
                    }),
            {
                let ghost visited = Seq::new(n as nat, |t: int| done@[t] || on_stack@[t]);
                let ghost stack0 = stack@;
                let top: usize = stack.len() - 1;
                let (tx, next_parent) = stack[top];
                proof {
                    assert(stack@[top as int].0 < n);
                    assert(v[tx as int].parents == txs@[tx as int].parents@);
                    bitset::size_bounded(visited, visited);
                }
                if next_parent < txs[tx].parents.len() {
                    let parent: usize = txs[tx].parents[next_parent];
                    assert(v[tx as int].parents[next_parent as int] < n);
                    if on_stack.contains(parent) {
                        proof {
                            stack_cycle(v, done@, on_stack@, stack@, parent);
                        }
                        return Err(ClusterError::Cycle { tx: parent });
                    }
                    stack.set(top, (tx, next_parent + 1));
                    if !done.contains(parent) {
                        stack.push((parent, 0));
                        let ghost on0 = on_stack@;
                        on_stack.insert(parent);
                        proof {
                            descend_stacked(v, done@, on0, stack0, parent);
                            assert(stack@ =~= stack0.update(top as int, (tx, (next_parent + 1) as usize)).push((parent, 0usize)));
                            bitset::size_insert(visited, parent as int);
                            assert(Seq::new(n as nat, |t: int| done@[t] || on_stack@[t])
                                =~= visited.update(parent as int, true));
                            bitset::size_bounded(
                                visited.update(parent as int, true),
                                visited.update(parent as int, true),
                            );
                        }
                    } else {
                        proof {
                            advance_stacked(v, done@, on_stack@, stack0, parent);
                        }
                    }
                } else {
                    // Every parent is finished, so this closure can be completed.
                    let mut closure: Bitset = Bitset::with_capacity(n);
                    closure.insert(tx);
                    let mut p: usize = 0;
                    while p < txs[tx].parents.len()
                        invariant
                            n == txs@.len(),
                            v == views(txs@),
                            cluster_graph::parents_in_bounds(v),
                            tx < n,
                            v[tx as int].parents == txs@[tx as int].parents@,
                            closures@.len() == n,
                            forall|t: int| 0 <= t < n ==> #[trigger] closures@[t]@.len() == n,
                            p <= txs@[tx as int].parents@.len(),
                            closure@.len() == n,
                            forall|a: int|
                                0 <= a < n ==> #[trigger] closure@[a] == (a == tx || exists|i: int|
                                    0 <= i < p && closures@[#[trigger] v[tx as int].parents[i] as int]@[a]),
                        decreases txs@[tx as int].parents@.len() - p,
                    {
                        let parent: usize = txs[tx].parents[p];
                        assert(v[tx as int].parents[p as int] < n);
                        let ghost before = closure@;
                        closure.insert_all(&closures[parent]);
                        proof {
                            assert forall|a: int| 0 <= a < n implies #[trigger] closure@[a] == (a
                                == tx || exists|i: int|
                                0 <= i < p + 1 && closures@[#[trigger] v[tx as int].parents[i] as int]@[a]) by {
                                assert(closure@[a] == (before[a] || closures@[parent as int]@[a]));
                                if before[a] && a != tx {
                                    let i = choose|i: int|
                                        0 <= i < p && closures@[#[trigger] v[tx as int].parents[i] as int]@[a];
                                    assert(closures@[v[tx as int].parents[i] as int]@[a]);
                                }
                                if closures@[parent as int]@[a] {
                                    assert(closures@[v[tx as int].parents[p as int] as int]@[a]);
                                }
                            }
                        }
                        p = p + 1;
                    }
                    let ghost closures0 = closures@;
                    let ghost done0 = done@;
                    let ghost on0 = on_stack@;
                    proof {
                        assert forall|p: int| 0 <= p < v[tx as int].parents.len() implies done@[
                            #[trigger] v[tx as int].parents[p] as int
                        ] by {
                            assert(v[stack@[top as int].0 as int].parents[p] == v[tx as int].parents[p]);
                            assert(p < dealt_with(stack@, top as int));
                        }
                        closure_from_parents(v, done@, closures@, tx as int, closure@);
                    }
                    closures.set(tx, closure);
                    done.insert(tx);
                    on_stack.remove(tx);
                    stack.pop();
                    proof {
                        assert forall|t: int| 0 <= t < n && #[trigger] done@[t] implies {
                            &&& !cluster_graph::on_cycle(v, t)
                            &&& forall|a: int|
                                0 <= a < n ==> #[trigger] closures@[t]@[a]
                                    == cluster_graph::is_ancestor(v, t, a)
                            &&& forall|a: int| #[trigger]
                                cluster_graph::is_ancestor(v, t, a) ==> done@[a]
                        } by {
                            if t != tx {
                                assert(done0[t]);
                            }
                        }
                        finish_stacked(v, done0, on0, stack0);
                        assert(Seq::new(n as nat, |t: int| done@[t] || on_stack@[t]) =~= visited);
                    }
                }
            }
        }
        root = root + 1;
    }
    proof {
        assert forall|t: int| 0 <= t < n implies #[trigger] closures@[t]@ == Seq::new(
            txs@.len(),
            |a: int| cluster_graph::is_ancestor(v, t, a),
        ) by {
            assert(done@[t]);
            assert(closures@[t]@ =~= Seq::new(
                txs@.len(),
                |a: int| cluster_graph::is_ancestor(v, t, a),
            ));
        }
        assert forall|t: int| 0 <= t < n implies !#[trigger] cluster_graph::on_cycle(v, t) by {
            assert(done@[t]);
        }
    }
    Ok(closures)
}

/// Moving on past a parent that is done.
proof fn advance_stacked(
    txs: Seq<TxView>,
    done: Seq<bool>,
    on_stack: Seq<bool>,
    stack: Seq<(usize, usize)>,
    parent: usize,
)
    requires
        stacked(txs, done, on_stack, stack),
        stack.len() > 0,
        stack.last().1 < txs[stack.last().0 as int].parents.len(),
        txs[stack.last().0 as int].parents[stack.last().1 as int] == parent,
        done[parent as int],
        txs[stack.last().0 as int].parents.len() <= usize::MAX,
    ensures
        stacked(
            txs,
            done,
            on_stack,
            stack.update(stack.len() - 1, (stack.last().0, (stack.last().1 + 1) as usize)),
        ),
{
    let top = stack.len() - 1;
    let next = stack.update(top, (stack.last().0, (stack.last().1 + 1) as usize));
    assert(next[top] == (stack[top].0, (stack[top].1 + 1) as usize));
    assert forall|k: int| 0 <= k < next.len() implies {
        let (tx, n) = #[trigger] next[k];
        tx < txs.len() && n <= txs[tx as int].parents.len() && !done[tx as int] && on_stack[tx as int]
    } by {
        assert(stack[k].0 == next[k].0);
    }
    assert forall|t: int| 0 <= t < txs.len() && #[trigger] on_stack[t] implies exists|k: int|
        0 <= k < next.len() && (#[trigger] next[k]).0 == t by {
        let k = choose|k: int| 0 <= k < stack.len() && (#[trigger] stack[k]).0 == t;
        assert(next[k].0 == t);
    }
    assert forall|i: int, j: int| 0 <= i < j < next.len() implies (#[trigger] next[i]).0 != (
    #[trigger] next[j]).0 by {
        assert(stack[i].0 == next[i].0 && stack[j].0 == next[j].0);
    }
    assert forall|k: int| 0 <= k < next.len() - 1 implies #[trigger] waits(txs, next, k) by {
        assert(waits(txs, stack, k));
    }
    assert forall|k: int, p: int| 0 <= k < next.len() && 0 <= p < dealt_with(next, k) implies done[
        #[trigger] txs[next[k].0 as int].parents[p] as int
    ] by {
        assert(next[k].0 == stack[k].0);
        if p < dealt_with(stack, k) {
            assert(done[txs[stack[k].0 as int].parents[p] as int]);
        }
    }
}

/// Waiting for a parent that is neither done nor on the stack.
proof fn descend_stacked(
    txs: Seq<TxView>,
    done: Seq<bool>,
    on_stack: Seq<bool>,
    stack: Seq<(usize, usize)>,
    parent: usize,
)
    requires
        stacked(txs, done, on_stack, stack),
        done.len() == txs.len(),
        on_stack.len() == txs.len(),
        stack.len() > 0,
        stack.last().1 < txs[stack.last().0 as int].parents.len(),
        txs[stack.last().0 as int].parents[stack.last().1 as int] == parent,
        parent < txs.len(),
        !done[parent as int],
        !on_stack[parent as int],
        txs[stack.last().0 as int].parents.len() <= usize::MAX,
    ensures
        stacked(
            txs,
            done,
            on_stack.update(parent as int, true),
            stack.update(
                stack.len() - 1,
                (stack.last().0, (stack.last().1 + 1) as usize),
            ).push((parent, 0usize)),
        ),
{
    let top = stack.len() - 1;
    let next = stack.update(top, (stack.last().0, (stack.last().1 + 1) as usize)).push(
        (parent, 0usize),
    );
    let on = on_stack.update(parent as int, true);
    assert(next[top] == (stack[top].0, (stack[top].1 + 1) as usize));
    assert(next[top + 1] == (parent, 0usize));
    assert forall|k: int| 0 <= k < next.len() implies {
        let (tx, n) = #[trigger] next[k];
        tx < txs.len() && n <= txs[tx as int].parents.len() && !done[tx as int] && on[tx as int]
    } by {
        if k <= top {
            assert(stack[k].0 == next[k].0);
        }
    }
    assert forall|i: int, j: int| 0 <= i < j < next.len() implies (#[trigger] next[i]).0 != (
    #[trigger] next[j]).0 by {
        assert(stack[i].0 == next[i].0);
        if j <= top {
            assert(stack[j].0 == next[j].0);
        }
    }
    assert forall|t: int| 0 <= t < txs.len() && #[trigger] on[t] implies exists|k: int|
        0 <= k < next.len() && (#[trigger] next[k]).0 == t by {
        if t == parent {
            assert(next[top + 1].0 == t);
        } else {
            assert(on_stack[t]);
            let k = choose|k: int| 0 <= k < stack.len() && (#[trigger] stack[k]).0 == t;
            assert(next[k].0 == t);
        }
    }
    assert forall|k: int| 0 <= k < next.len() - 1 implies #[trigger] waits(txs, next, k) by {
        if k < top {
            assert(waits(txs, stack, k));
        }
    }
    assert forall|k: int, p: int| 0 <= k < next.len() && 0 <= p < dealt_with(next, k) implies done[
        #[trigger] txs[next[k].0 as int].parents[p] as int
    ] by {
        assert(next[k].0 == stack[k].0);
        assert(p < dealt_with(stack, k));
        assert(done[txs[stack[k].0 as int].parents[p] as int]);
    }
}

/// Finishing the transaction on top of the stack.
proof fn finish_stacked(
    txs: Seq<TxView>,
    done: Seq<bool>,
    on_stack: Seq<bool>,
    stack: Seq<(usize, usize)>,
)
    requires
        cluster_graph::parents_in_bounds(txs),
        stacked(txs, done, on_stack, stack),
        done.len() == txs.len(),
        on_stack.len() == txs.len(),
        stack.len() > 0,
    ensures
        stacked(
            txs,
            done.update(stack.last().0 as int, true),
            on_stack.update(stack.last().0 as int, false),
            stack.drop_last(),
        ),
{
    let top = stack.len() - 1;
    let tx = stack[top].0 as int;
    let next = stack.drop_last();
    let after = done.update(tx, true);
    let on = on_stack.update(tx, false);
    assert forall|k: int| 0 <= k < next.len() implies {
        let (t, n) = #[trigger] next[k];
        t < txs.len() && n <= txs[t as int].parents.len() && !after[t as int] && on[t as int]
    } by {
        assert(stack[k].0 != stack[top].0);
    }
    assert forall|t: int| 0 <= t < txs.len() && #[trigger] on[t] implies exists|k: int|
        0 <= k < next.len() && (#[trigger] next[k]).0 == t by {
        assert(on_stack[t]);
        let k = choose|k: int| 0 <= k < stack.len() && (#[trigger] stack[k]).0 == t;
        assert(next[k].0 == t);
    }
    assert forall|i: int, j: int| 0 <= i < j < next.len() implies (#[trigger] next[i]).0 != (
    #[trigger] next[j]).0 by {
        assert(stack[i] == next[i] && stack[j] == next[j]);
    }
    assert forall|k: int| 0 <= k < next.len() - 1 implies #[trigger] waits(txs, next, k) by {
        assert(waits(txs, stack, k));
    }
    assert forall|k: int, p: int| 0 <= k < next.len() && 0 <= p < dealt_with(next, k) implies after[
        #[trigger] txs[next[k].0 as int].parents[p] as int
    ] by {
        assert(next[k] == stack[k]);
        assert(stack[k].0 < txs.len());
        assert(txs[stack[k].0 as int].parents[p] < txs.len());
        if p < dealt_with(stack, k) {
            assert(done[txs[stack[k].0 as int].parents[p] as int]);
        } else {
            assert(k == top - 1 && p == stack[k].1 - 1);
            assert(waits(txs, stack, k));
        }
    }
}

/// A connected piece of the mempool: the unconfirmed transactions that matter to a selection, and
/// which candidates spend from which.
///
/// Since it holds the graph rather than a list of ancestors, no ancestor is forgotten, and what a
/// miner would include anyway costs nothing: neither a transaction that pays enough nor one that a
/// child pays for.
///
/// It should hold the descendants and siblings of ancestors where they are known. Where they are
/// not, a package is priced as if it needed the bump: that overpays, but the transaction confirms.
#[derive(Debug)]
pub struct Cluster {
    txs: Vec<MempoolTx>,
    /// Pairs of a candidate index and the index of a transaction whose output it spends.
    candidate_spends: Vec<(usize, usize)>,
    /// For each transaction, itself and every ancestor.
    closures: Vec<Bitset>,
}

impl View for Cluster {
    type V = ClusterView;

    closed spec fn view(&self) -> ClusterView {
        ClusterView { txs: views(self.txs@), spends: self.candidate_spends@ }
    }
}

/// Whether parent `k` of transaction `t` is not in the graph.
pub open spec fn bad_parent(txs: Seq<TxView>, t: int, k: int) -> bool {
    0 <= k < txs[t].parents.len() && txs[t].parents[k] >= txs.len()
}

/// What building a cluster leads to: the first index that is out of bounds, a transaction on a
/// cycle, or the cluster.
pub open spec fn cluster_outcome(
    view: ClusterView,
    r: Result<ClusterView, ClusterError>,
) -> bool {
    let txs = view.txs;
    match r {
        Ok(cluster) => cluster == view && view.wf(),
        Err(ClusterError::ParentOutOfBounds { tx, parent }) => {
            &&& tx < txs.len()
            &&& forall|t: int, k: int| 0 <= t < tx ==> !#[trigger] bad_parent(txs, t, k)
            &&& exists|k: int|
                {
                    &&& #[trigger] bad_parent(txs, tx as int, k)
                    &&& txs[tx as int].parents[k] == parent
                    &&& forall|j: int| 0 <= j < k ==> !#[trigger] bad_parent(txs, tx as int, j)
                }
        },
        Err(ClusterError::SpendOutOfBounds { candidate, tx }) => {
            &&& cluster_graph::parents_in_bounds(txs)
            &&& exists|i: int|
                {
                    &&& 0 <= i < view.spends.len()
                    &&& #[trigger] view.spends[i] == (candidate, tx)
                    &&& tx >= txs.len()
                    &&& forall|j: int| 0 <= j < i ==> (#[trigger] view.spends[j]).1 < txs.len()
                }
        },
        Err(ClusterError::Cycle { tx }) => {
            &&& cluster_graph::parents_in_bounds(txs)
            &&& forall|i: int| 0 <= i < view.spends.len() ==> (#[trigger] view.spends[i]).1 < txs.len()
            &&& tx < txs.len()
            &&& cluster_graph::on_cycle(txs, tx as int)
        },
    }
}

impl Cluster {
    /// Whether the stored closures are those of the graph.
    pub closed spec fn inv(&self) -> bool {
        &&& self@.wf()
        &&& self.closures@.len() == self.txs@.len()
        &&& forall|t: int|
            0 <= t < self.txs@.len() ==> #[trigger] self.closures@[t]@ == self@.closure(t)
    }

    /// The references within a cluster are sound.
    pub proof fn inv_wf(&self)
        requires
            self.inv(),
        ensures
            self@.wf(),
            self@.n() <= usize::MAX,
    {
        assert(self.txs.len() == self@.n());
    }

    /// A cluster of unconfirmed transactions and the candidates that spend them.
    ///
    /// `candidate_spends` pairs the index of a candidate with the index of a transaction whose
    /// output it spends. Several candidates may spend from a transaction, and a candidate may spend
    /// from several.
    pub fn new(txs: Vec<MempoolTx>, candidate_spends: Vec<(usize, usize)>) -> (r: Result<
        Self,
        ClusterError,
    >)
        ensures
            r matches Ok(cluster) ==> cluster.inv(),
            cluster_outcome(
                ClusterView { txs: views(txs@), spends: candidate_spends@ },
                match r {
                    Ok(cluster) => Ok(cluster@),
                    Err(e) => Err(e),
                },
            ),
    {
        let ghost v = views(txs@);
        let n: usize = txs.len();
        let mut t: usize = 0;
        while t < n
            invariant
                n == txs@.len(),
                v == views(txs@),
                t <= n,
                forall|i: int, k: int| 0 <= i < t ==> !#[trigger] bad_parent(v, i, k),
            decreases n - t,
        {
            let mut k: usize = 0;
            while k < txs[t].parents.len()
                invariant
                    n == txs@.len(),
                    v == views(txs@),
                    t < n,
                    forall|i: int, k: int| 0 <= i < t ==> !#[trigger] bad_parent(v, i, k),
                    k <= v[t as int].parents.len(),
                    forall|j: int| 0 <= j < k ==> !#[trigger] bad_parent(v, t as int, j),
                decreases v[t as int].parents.len() - k,
            {
                let parent: usize = txs[t].parents[k];
                if parent >= n {
                    assert(bad_parent(v, t as int, k as int));
                    return Err(ClusterError::ParentOutOfBounds { tx: t, parent });
                }
                k = k + 1;
            }
            t = t + 1;
        }
        assert forall|t: int, k: int|
            0 <= t < v.len() && 0 <= k < v[t].parents.len() implies #[trigger] v[t].parents[k]
            < v.len() by {
            assert(!bad_parent(v, t, k));
        }
        let mut i: usize = 0;
        while i < candidate_spends.len()
            invariant
                n == v.len(),
                cluster_graph::parents_in_bounds(v),
                i <= candidate_spends@.len(),
                forall|j: int| 0 <= j < i ==> (#[trigger] candidate_spends@[j]).1 < n,
                v == views(txs@),
            decreases candidate_spends@.len() - i,
        {
            let (candidate, tx) = candidate_spends[i];
            if tx >= n {
                proof {
                    let view = ClusterView { txs: v, spends: candidate_spends@ };
                    assert(view.spends[i as int] == (candidate, tx));
                    assert forall|j: int| 0 <= j < i implies (#[trigger] view.spends[j]).1
                        < view.txs.len() by {
                        assert(candidate_spends@[j].1 < n);
                    }
                }
                return Err(ClusterError::SpendOutOfBounds { candidate, tx });
            }
            i = i + 1;
        }
        match ancestor_closures(&txs) {
            Ok(closures) => {
                let cluster = Cluster { txs, candidate_spends, closures };
                proof {
                    assert forall|t: int| 0 <= t < v.len() implies #[trigger] cluster.closures@[t]@
                        == cluster@.closure(t) by {
                        assert(cluster.closures@[t]@ =~= cluster@.closure(t));
                    }
                }
                Ok(cluster)
            },
            Err(e) => Err(e),
        }
    }

    /// The candidates that spend from this cluster, ascending and without duplicates.
    pub fn candidates(&self) -> (list: Vec<usize>)
        requires
            self.inv(),
        ensures
            self@.lists_candidates(list@),
    {
        let ghost spends = self@.spends;
        let mut list: Vec<usize> = Vec::new();
        let mut i: usize = 0;
        while i < self.candidate_spends.len()
            invariant
                spends == self@.spends,
                spends == self.candidate_spends@,
                i <= spends.len(),
                forall|a: int, b: int|
                    0 <= a < b < list@.len() ==> #[trigger] list@[a] < #[trigger] list@[b],
                forall|k: int|
                    0 <= k < list@.len() ==> exists|j: int|
                        0 <= j < i && (#[trigger] spends[j]).0 == #[trigger] list@[k],
                forall|j: int| 0 <= j < i ==> list@.contains((#[trigger] spends[j]).0),
            decreases spends.len() - i,
        {
            let (candidate, _) = self.candidate_spends[i];
            let mut at: usize = 0;
            while at < list.len() && list[at] < candidate
                invariant
                    at <= list@.len(),
                    forall|k: int| 0 <= k < at ==> #[trigger] list@[k] < candidate,
                    forall|a: int, b: int|
                        0 <= a < b < list@.len() ==> #[trigger] list@[a] < #[trigger] list@[b],
                decreases list@.len() - at,
            {
                at = at + 1;
            }
            let ghost before = list@;
            if at == list.len() || list[at] != candidate {
                list.insert(at, candidate);
                proof {
                    assert(list@ =~= before.insert(at as int, candidate));
                    assert(list@[at as int] == candidate);
                    assert forall|k: int| 0 <= k < list@.len() implies exists|j: int|
                        0 <= j < i + 1 && (#[trigger] spends[j]).0 == #[trigger] list@[k] by {
                        if k == at {
                            assert(spends[i as int].0 == list@[k]);
                        } else {
                            let old_k = if k < at {
                                k
                            } else {
                                k - 1
                            };
                            assert(before[old_k] == list@[k]);
                            let j = choose|j: int|
                                0 <= j < i && (#[trigger] spends[j]).0 == before[old_k];
                            assert(spends[j].0 == list@[k]);
                        }
                    }
                    assert forall|j: int| 0 <= j < i + 1 implies list@.contains(
                        (#[trigger] spends[j]).0,
                    ) by {
                        if j < i {
                            let k = choose|k: int| 0 <= k < before.len() && before[k] == spends[j].0;
                            let new_k = if k < at {
                                k
                            } else {
                                k + 1
                            };
                            assert(list@[new_k] == spends[j].0);
                        } else {
                            assert(list@[at as int] == spends[j].0);
                        }
                    }
                }
            } else {
                proof {
                    assert(list@[at as int] == spends[i as int].0);
                    assert forall|k: int| 0 <= k < list@.len() implies exists|j: int|
                        0 <= j < i + 1 && (#[trigger] spends[j]).0 == #[trigger] list@[k] by {
                        let j = choose|j: int| 0 <= j < i && (#[trigger] spends[j]).0 == list@[k];
                        assert(spends[j].0 == list@[k]);
                    }
                }
            }
            i = i + 1;
        }
        proof {
            assert forall|k: int| 0 <= k < list@.len() implies self@.is_spent_by(
                #[trigger] list@[k],
            ) by {
                let j = choose|j: int| 0 <= j < i && (#[trigger] spends[j]).0 == list@[k];
                assert(self@.spends[j].0 == list@[k]);
            }
            assert forall|c: usize| #[trigger] self@.is_spent_by(c) implies list@.contains(c) by {
                let j = choose|j: int|
                    0 <= j < self@.spends.len() && (#[trigger] self@.spends[j]).0 == c;
                assert(list@.contains(spends[j].0));
            }
        }
        list
    }

    /// Every transaction that selecting `candidate` pulls into the package: those it spends from,
    /// with all their ancestors.
    pub fn package_of(&self, candidate: usize) -> (package: Bitset)
        requires
            self.inv(),
        ensures
            package@ == self@.package(cluster_graph::only(candidate)),
    {
        let ghost view = self@;
        let mut package: Bitset = Bitset::with_capacity(self.txs.len());
        let mut i: usize = 0;
        while i < self.candidate_spends.len()
            invariant
                self.inv(),
                view == self@,
                view.spends == self.candidate_spends@,
                view.txs.len() == self.txs@.len(),
                i <= view.spends.len(),
                package@.len() == view.n(),
                forall|a: int|
                    0 <= a < view.n() ==> #[trigger] package@[a] == exists|j: int|
                        0 <= j < i && (#[trigger] view.spends[j]).0 == candidate
                            && cluster_graph::is_ancestor(view.txs, view.spends[j].1 as int, a),
            decreases view.spends.len() - i,
        {
            let (c, tx) = self.candidate_spends[i];
            let ghost before = package@;
            assert(view.spends[i as int].1 < view.n());
            if c == candidate {
                package.insert_all(&self.closures[tx]);
            }
            proof {
                assert forall|a: int| 0 <= a < view.n() implies #[trigger] package@[a] == exists|j: int|
                    0 <= j < i + 1 && (#[trigger] view.spends[j]).0 == candidate
                        && cluster_graph::is_ancestor(view.txs, view.spends[j].1 as int, a) by {
                    if before[a] {
                        let j = choose|j: int|
                            0 <= j < i && (#[trigger] view.spends[j]).0 == candidate
                                && cluster_graph::is_ancestor(view.txs, view.spends[j].1 as int, a);
                        assert(view.spends[j].0 == candidate);
                    }
                    if c == candidate {
                        assert(self.closures@[tx as int]@[a] == cluster_graph::is_ancestor(
                            view.txs,
                            tx as int,
                            a,
                        ));
                        assert(view.spends[i as int].0 == candidate);
                    }
                }
            }
            i = i + 1;
        }
        proof {
            assert(package@ =~= view.package(cluster_graph::only(candidate)));
        }
        package
    }

    /// The number of transactions.
    pub fn n_txs(&self) -> (r: usize)
        ensures
            r == self@.n(),
    {
        self.txs.len()
    }

    /// The transaction at `index`.
    pub fn tx(&self, index: usize) -> (r: &MempoolTx)
        requires
            index < self@.n(),
        ensures
            r@ == self@.txs[index as int],
    {
        &self.txs[index]
    }

    /// Weight and fee of what is left of the package of `tx`, its ancestors included, once `mined`
    /// is taken out.
    fn remaining_package(&self, tx: usize, mined: &Bitset) -> (r: (u64, u64))
        requires
            self.inv(),
            self@.sums_fit(),
            tx < self@.n(),
            mined@.len() == self@.n(),
        ensures
            r.0 == self@.weight_of(self@.remaining(tx as int, mined@)),
            r.1 == self@.fee_of(self@.remaining(tx as int, mined@)),
    {
        let ghost view = self@;
        let ghost rest = view.remaining(tx as int, mined@);
        let ghost w = |t: int| if rest[t] { (|t: int| view.txs[t].weight as int)(t) } else { 0 };
        let ghost f = |t: int| if rest[t] { (|t: int| view.txs[t].fee as int)(t) } else { 0 };
        let mut weight: u64 = 0;
        let mut fee: u64 = 0;
        let mut a: usize = 0;
        proof {
            view.sums_bounded(rest);
        }
        while a < self.txs.len()
            invariant
                self.inv(),
                view == self@,
                view.n() == self.txs@.len(),
                rest == view.remaining(tx as int, mined@),
                tx < view.n(),
                mined@.len() == view.n(),
                w == (|t: int| if rest[t] { (|t: int| view.txs[t].weight as int)(t) } else { 0 }),
                f == (|t: int| if rest[t] { (|t: int| view.txs[t].fee as int)(t) } else { 0 }),
                sums::sum(view.n(), w) <= u64::MAX,
                sums::sum(view.n(), f) <= u64::MAX,
                a <= view.n(),
                weight == sums::sum(a as int, w),
                fee == sums::sum(a as int, f),
            decreases view.n() - a,
        {
            proof {
                sums::lemma_sum_prefix(a + 1, view.n(), w);
                sums::lemma_sum_prefix(a + 1, view.n(), f);
                assert(self.closures@[tx as int]@[a as int] == cluster_graph::is_ancestor(
                    view.txs,
                    tx as int,
                    a as int,
                ));
            }
            if self.closures[tx].contains(a) && !mined.contains(a) {
                weight = weight + self.txs[a].weight;
                fee = fee + self.txs[a].fee;
            }
            a = a + 1;
        }
        (weight, fee)
    }

    /// Of the transactions that have not been mined, the one whose remaining package pays the most,
    /// with the weight and the fee of that package.
    fn best_remaining(&self, mined: &Bitset) -> (best: Option<(usize, u64, u64)>)
        requires
            self.inv(),
            self@.sums_fit(),
            mined@.len() == self@.n(),
        ensures
            match best {
                Some((tx, weight, fee)) => {
                    &&& self@.best_package(mined@, self@.n()) == Some(tx as int)
                    &&& weight == self@.weight_of(self@.remaining(tx as int, mined@))
                    &&& fee == self@.fee_of(self@.remaining(tx as int, mined@))
                },
                None => self@.best_package(mined@, self@.n()) is None,
            },
    {
        let ghost view = self@;
        let mut best: Option<(usize, u64, u64)> = None;
        let mut tx_index: usize = 0;
        while tx_index < self.txs.len()
            invariant
                self.inv(),
                view == self@,
                view.sums_fit(),
                view.n() == self.txs@.len(),
                mined@.len() == view.n(),
                tx_index <= view.n(),
                match best {
                    Some((tx, weight, fee)) => {
                        &&& view.best_package(mined@, tx_index as int) == Some(tx as int)
                        &&& weight == view.weight_of(view.remaining(tx as int, mined@))
                        &&& fee == view.fee_of(view.remaining(tx as int, mined@))
                    },
                    None => view.best_package(mined@, tx_index as int) is None,
                },
            decreases view.n() - tx_index,
        {
            if !mined.contains(tx_index) {
                let (weight, fee) = self.remaining_package(tx_index, mined);
                // The ratios are compared by cross-multiplication, so that nothing is rounded.
                let better: bool = match best {
                    None => true,
                    Some((_, best_weight, best_fee)) => {
                        proof {
                            assert(0 <= fee * best_weight <= 0xffff_ffff_ffff_ffff
                                * 0xffff_ffff_ffff_ffff) by (nonlinear_arith)
                                requires
                                    0 <= fee <= 0xffff_ffff_ffff_ffff,
                                    0 <= best_weight <= 0xffff_ffff_ffff_ffff,
                            ;
                            assert(0 <= best_fee * weight <= 0xffff_ffff_ffff_ffff
                                * 0xffff_ffff_ffff_ffff) by (nonlinear_arith)
                                requires
                                    0 <= best_fee <= 0xffff_ffff_ffff_ffff,
                                    0 <= weight <= 0xffff_ffff_ffff_ffff,
                            ;
                        }
                        fee as u128 * best_weight as u128 > best_fee as u128 * weight as u128
                    },
                };
                if better {
                    best = Some((tx_index, weight, fee));
                }
            }
            tx_index = tx_index + 1;
        }
        best
    }

    /// Builds a mock block at `feerate` and returns the transactions that it includes.
    ///
    /// The remaining package, a transaction with its ancestors, that pays the most per weight is
    /// taken until even that one pays less than `feerate`. What is mined pays its own way and needs
    /// no bump. A transaction that pays too little is mined still if a descendant pays for it.
    pub fn mine(&self, feerate: FeeRate) -> (mined: Bitset)
        requires
            self.inv(),
            self@.sums_fit(),
        ensures
            mined@ == self@.mined_at(feerate),
    {
        let ghost view = self@;
        let n: usize = self.txs.len();
        let mut mined: Bitset = Bitset::with_capacity(n);
        proof {
            assert(mined@ =~= Seq::new(view.txs.len(), |t: int| false));
        }
        loop
            invariant
                self.inv(),
                view == self@,
                view.sums_fit(),
                view.n() == n,
                self.closures@.len() == n,
                mined@.len() == n,
                view.mine_from(mined@, feerate) == view.mined_at(feerate),
            decreases n - bitset::size(mined@),
        {
            proof {
                view.best_package_unmined(mined@, n as int);
                bitset::size_bounded(mined@, mined@);
            }
            let (tx_index, weight, fee) = match self.best_remaining(&mined) {
                Some(best) => best,
                None => {
                    return mined;
                },
            };
            // If the best remaining package pays too little, so does every other.
            if fee < feerate.implied_fee_wu(weight) {
                return mined;
            }
            proof {
                view.mining_progresses(tx_index as int, mined@);
                assert(self.closures@[tx_index as int]@ == view.closure(tx_index as int));
                assert(Seq::new(
                    mined@.len(),
                    |i: int| mined@[i] || self.closures@[tx_index as int]@[i],
                ) =~= view.mined_with(tx_index as int, mined@));
            }
            mined.insert_all(&self.closures[tx_index]);
        }
    }
}

} // verus!
