//! Which ancestors a group of inputs drags in, and what the group adds up to.
use crate::ancestry;
use crate::ancestry::{AncestorToBump, Input};
use crate::bitset;
use crate::bitset::Bitset;
use crate::candidate::Candidate;
use crate::cluster_graph;
use crate::selection_problem;
use crate::selection_problem::SelectionProblem;
use crate::sums;
use crate::target::Target;
use vstd::prelude::*;

verus! {

/// Whether ancestor `i` is the one that `txid` names: the first that bears it.
pub open spec fn is_named<T>(ancestors: Seq<AncestorToBump<T>>, txid: T, i: int) -> bool {
    &&& 0 <= i < ancestors.len()
    &&& ancestors[i].txid == txid
    &&& forall|j: int| 0 <= j < i ==> (#[trigger] ancestors[j]).txid != txid
}

/// A name that some ancestor bears names one.
pub proof fn known_names_name_one<T>(ancestors: Seq<AncestorToBump<T>>, txid: T, at: int) -> (i: int)
    requires
        0 <= at < ancestors.len(),
        ancestors[at].txid == txid,
    ensures
        is_named(ancestors, txid, i),
        ancestry::position(ancestors, txid) == Some(i),
    decreases at,
{
    if exists|j: int| 0 <= j < at && (#[trigger] ancestors[j]).txid == txid {
        let j = choose|j: int| 0 <= j < at && (#[trigger] ancestors[j]).txid == txid;
        known_names_name_one(ancestors, txid, j)
    } else {
        assert(ancestry::resolves(ancestors, txid, at));
        ancestry::position_unique(ancestors, txid, at);
        at
    }
}

/// A list of names stands for all the ancestors that it names, and for no other.
pub proof fn names_stand_for_all_they_name<T>(
    ancestors: Seq<AncestorToBump<T>>,
    txids: Seq<T>,
    i: int,
)
    requires
        ancestors.len() <= usize::MAX,
        0 <= i < ancestors.len(),
    ensures
        ancestry::positions(ancestors, txids).contains(i as usize) <==> exists|k: int|
            0 <= k < txids.len() && is_named(ancestors, #[trigger] txids[k], i),
    decreases txids.len(),
{
    if txids.len() > 0 {
        let less = txids.drop_last();
        let last = txids.len() - 1;
        let rest = ancestry::positions(ancestors, less);
        let all = ancestry::positions(ancestors, txids);
        names_stand_for_all_they_name(ancestors, less, i);
        if all.contains(i as usize) {
            let at = choose|at: int| 0 <= at < all.len() && all[at] == i as usize;
            if at < rest.len() {
                assert(rest[at] == i as usize);
                let k = choose|k: int|
                    0 <= k < less.len() && is_named(ancestors, #[trigger] less[k], i);
                assert(is_named(ancestors, txids[k], i));
            } else {
                let j = choose|j: int| ancestry::resolves(ancestors, txids.last(), j);
                assert(ancestry::resolves(ancestors, txids.last(), j));
                assert(is_named(ancestors, txids[last], i));
            }
        }
        if exists|k: int| 0 <= k < txids.len() && is_named(ancestors, #[trigger] txids[k], i) {
            let k = choose|k: int|
                0 <= k < txids.len() && is_named(ancestors, #[trigger] txids[k], i);
            if k < last {
                assert(is_named(ancestors, less[k], i));
                let at = choose|at: int| 0 <= at < rest.len() && rest[at] == i as usize;
                assert(all[at] == i as usize);
            } else {
                assert(ancestry::resolves(ancestors, txids.last(), i));
                ancestry::position_unique(ancestors, txids.last(), i);
                assert(all[rest.len() as int] == i as usize);
            }
        }
    }
}

/// Whether a set of ancestors holds every one that an input of the group resides in, and with each
/// that it holds every one that it names as a parent.
pub open spec fn holds_all_unconfirmed<T>(
    ancestors: Seq<AncestorToBump<T>>,
    group: Seq<Input<T>>,
    set: Seq<bool>,
) -> bool {
    &&& set.len() == ancestors.len()
    &&& forall|k: int, i: int|
        0 <= k < group.len() && #[trigger] is_named(ancestors, group[k].residing_txid, i) ==> set[i]
    &&& forall|t: int, k: int, i: int|
        0 <= t < ancestors.len() && set[t] && 0 <= k < ancestors[t].parents@.len()
            && #[trigger] is_named(ancestors, ancestors[t].parents@[k], i) ==> set[i]
}

/// A group drags in every ancestor that one of its inputs resides in, and all the parents that
/// those name, and theirs; and nothing beyond that: it is the least set that holds them all.
pub proof fn groups_drag_in_all_unconfirmed<T>(
    ancestors: Seq<AncestorToBump<T>>,
    group: Seq<Input<T>>,
    set: Seq<bool>,
)
    requires
        ancestors.len() <= usize::MAX,
    ensures
        holds_all_unconfirmed(ancestors, group, ancestry::dragged_by_group(ancestors, group)),
        holds_all_unconfirmed(ancestors, group, set) ==> bitset::subset(
            ancestry::dragged_by_group(ancestors, group),
            set,
        ),
{
    let txs = ancestry::graph(ancestors);
    let starts = ancestry::positions(ancestors, ancestry::residing(group));
    let dragged = ancestry::dragged_by_group(ancestors, group);
    ancestry::positions_in_bounds(ancestors, ancestry::residing(group));
    assert forall|k: int, i: int|
        0 <= k < group.len() && #[trigger] is_named(
            ancestors,
            group[k].residing_txid,
            i,
        ) implies dragged[i] by {
        names_stand_for_all_they_name(ancestors, ancestry::residing(group), i);
        assert(is_named(ancestors, ancestry::residing(group)[k], i));
        let at = choose|at: int| 0 <= at < starts.len() && starts[at] == i as usize;
        cluster_graph::ancestor_reflexive(txs, i);
        assert(cluster_graph::is_ancestor(txs, starts[at] as int, i));
    }
    assert forall|t: int, k: int, i: int|
        0 <= t < ancestors.len() && dragged[t] && 0 <= k < ancestors[t].parents@.len()
            && #[trigger] is_named(ancestors, ancestors[t].parents@[k], i) implies dragged[i] by {
        names_stand_for_all_they_name(ancestors, ancestors[t].parents@, i);
        let at = choose|at: int|
            0 <= at < starts.len() && cluster_graph::is_ancestor(
                txs,
                #[trigger] starts[at] as int,
                t,
            );
        let j = choose|j: int| 0 <= j < txs[t].parents.len() && txs[t].parents[j] == i as usize;
        assert(txs[t].parents[j] == i);
        assert(cluster_graph::is_parent(txs, t, i));
        cluster_graph::ancestor_reflexive(txs, i);
        cluster_graph::ancestor_by_parent(txs, t, i, i);
        cluster_graph::ancestor_transitive(txs, starts[at] as int, t, i);
        assert(cluster_graph::is_ancestor(txs, starts[at] as int, i));
    }
    if holds_all_unconfirmed(ancestors, group, set) {
        assert forall|t: int, k: int|
            0 <= t < txs.len() && set[t] && 0 <= k < txs[t].parents.len() implies set[
        #[trigger] txs[t].parents[k] as int] by {
            let i = txs[t].parents[k] as int;
            ancestry::positions_in_bounds(ancestors, ancestors[t].parents@);
            names_stand_for_all_they_name(ancestors, ancestors[t].parents@, i);
            assert(txs[t].parents.contains(i as usize));
            let at = choose|at: int|
                0 <= at < ancestors[t].parents@.len() && is_named(
                    ancestors,
                    #[trigger] ancestors[t].parents@[at],
                    i,
                );
            assert(is_named(ancestors, ancestors[t].parents@[at], i));
        }
        assert forall|a: int| 0 <= a < dragged.len() && #[trigger] dragged[a] implies set[a] by {
            let at = choose|at: int|
                0 <= at < starts.len() && cluster_graph::is_ancestor(
                    txs,
                    #[trigger] starts[at] as int,
                    a,
                );
            let i = starts[at] as int;
            names_stand_for_all_they_name(ancestors, ancestry::residing(group), i);
            assert(starts.contains(i as usize));
            let k = choose|k: int|
                0 <= k < ancestry::residing(group).len() && is_named(
                    ancestors,
                    #[trigger] ancestry::residing(group)[k],
                    i,
                );
            assert(is_named(ancestors, group[k].residing_txid, i));
            let path = choose|path: Seq<int>| #[trigger]
                cluster_graph::is_path(txs, path) && path[0] == i && path.last() == a;
            ancestry::closed_has_ancestors(txs, set, path);
        }
    }
}

/// An input more adds what it is worth, what it weighs and one input of its kind to a group; a
/// group of none is worth nothing.
pub proof fn groups_add_up<T>(
    group: Seq<Input<T>>,
    input: Input<T>,
    less: Candidate,
    candidate: Candidate,
)
    requires
        ancestry::is_group(less, group),
        ancestry::is_group(candidate, group.push(input)),
    ensures
        candidate.value == less.value + input.value,
        candidate.weight == less.weight + input.weight,
        candidate.segwit_count == less.segwit_count + (if input.is_segwit {
            1int
        } else {
            0
        }),
        candidate.legacy_count == less.legacy_count + (if input.is_segwit {
            0int
        } else {
            1
        }),
        group.len() == 0 ==> less.value == 0 && less.weight == 0 && less.segwit_count == 0
            && less.legacy_count == 0,
{
    let more = group.push(input);
    let n = group.len() as int;
    sums::lemma_sum_ext(n, |k: int| group[k].value as int, |k: int| more[k].value as int);
    sums::lemma_sum_ext(n, |k: int| group[k].weight as int, |k: int| more[k].weight as int);
    sums::lemma_sum_ext(
        n,
        |k: int| if group[k].is_segwit { 1int } else { 0 },
        |k: int| if more[k].is_segwit { 1int } else { 0 },
    );
}

/// Each ancestor counts with its own weight and fee.
pub proof fn ancestors_keep_their_weight_and_fee<T>(ancestors: Seq<AncestorToBump<T>>, a: int)
    requires
        0 <= a < ancestors.len(),
    ensures
        ancestry::weights_and_fees(ancestors).len() == ancestors.len(),
        ancestry::weights_and_fees(ancestors)[a] == (ancestors[a].weight, ancestors[a].fee),
{
}

/// A problem over groups of inputs holds one candidate for each group, with what its inputs add up
/// to, and what each drags in: all ancestors that its inputs reside in and all that those name as
/// parents, one after the other, and no other ancestor.
pub proof fn problems_know_all_unconfirmed_ancestors<T: PartialEq>(
    target: Target,
    inputs: Vec<Vec<Input<T>>>,
    ancestors: Vec<AncestorToBump<T>>,
    problem: SelectionProblem,
    c: int,
    set: Seq<bool>,
)
    requires
        call_ensures(SelectionProblem::new::<T>, (target, inputs, ancestors), problem),
        ancestors@.len() <= usize::MAX,
        0 <= c < inputs@.len(),
    ensures
        problem@.target == target,
        problem@.n() == inputs@.len(),
        problem@.m() == ancestors@.len(),
        forall|a: int|
            0 <= a < ancestors@.len() ==> #[trigger] problem@.ancestors[a] == (
                ancestors@[a].weight,
                ancestors@[a].fee,
            ),
        holds_all_unconfirmed(ancestors@, inputs@[c]@, problem@.drags[c]),
        holds_all_unconfirmed(ancestors@, inputs@[c]@, set) ==> bitset::subset(
            problem@.drags[c],
            set,
        ),
        ancestry::is_group(problem@.candidates[c], inputs@[c]@),
        inputs@[c]@.len() == 1 ==> {
            let input = inputs@[c]@[0];
            problem@.candidates[c] == (Candidate {
                value: input.value,
                weight: input.weight,
                segwit_count: if input.is_segwit {
                    1
                } else {
                    0
                },
                legacy_count: if input.is_segwit {
                    0
                } else {
                    1
                },
            })
        },
{
    groups_drag_in_all_unconfirmed(ancestors@, inputs@[c]@, set);
    assert(problem@.drags[c] == ancestry::dragged_by_group(ancestors@, inputs@[c]@));
    assert(ancestry::is_group(problem@.candidates[c], inputs@[c]@));
    assert forall|a: int| 0 <= a < ancestors@.len() implies #[trigger] problem@.ancestors[a] == (
        ancestors@[a].weight,
        ancestors@[a].fee,
    ) by {
        ancestors_keep_their_weight_and_fee(ancestors@, a);
    }
    if inputs@[c]@.len() == 1 {
        let group = inputs@[c]@;
        let none = Seq::<Input<T>>::empty();
        let nothing = Candidate { value: 0, weight: 0, segwit_count: 0, legacy_count: 0 };
        assert(group =~= none.push(group[0]));
        groups_add_up(none, group[0], nothing, problem@.candidates[c]);
    }
}

/// What a problem was made of can be read back: the ancestors that a candidate drags in, those of
/// them that others drag in too, and what the others weigh and paid.
pub proof fn problems_read_back(
    problem: &SelectionProblem,
    index: usize,
    list: &[u32],
    shared: &[u32],
    own: (u64, u64),
    a: u32,
)
    requires
        problem.inv(),
        index < problem@.n(),
        a < problem@.m(),
        call_ensures(SelectionProblem::drags_in, (problem, index), list),
        call_ensures(SelectionProblem::shared_drags_in, (problem, index), shared),
        call_ensures(SelectionProblem::private_ancestors, (problem, index), own),
    ensures
        list@.contains(a) <==> problem@.drags[index as int][a as int],
        shared@.contains(a) <==> problem@.drags[index as int][a as int] && exists|d: int|
            0 <= d < problem@.n() && d != index && #[trigger] problem@.drags[d][a as int],
        forall|i: int, j: int|
            0 <= i < j < list@.len() ==> #[trigger] list@[i] < #[trigger] list@[j],
        forall|i: int, j: int|
            0 <= i < j < shared@.len() ==> #[trigger] shared@[i] < #[trigger] shared@[j],
        ({
            let p = problem@;
            let all = p.everything();
            let others = all.update(index as int, false);
            &&& own.0 == p.ancestor_weight(all) - p.ancestor_weight(others)
            &&& own.1 == p.ancestor_fee(all) - p.ancestor_fee(others)
        }),
{
    problem.inv_shape();
    let p = problem@;
    let c = index as int;
    p.private_is_what_is_lost(c);
    p.shared_by_two(a as int);
    assert(p.drags[c].len() == p.m());
    let row = selection_problem::shared_row(p, c);
    if list@.contains(a) {
        let k = choose|k: int| 0 <= k < list@.len() && list@[k] == a;
        assert(p.drags[c][list@[k] as int]);
    }
    if shared@.contains(a) {
        let k = choose|k: int| 0 <= k < shared@.len() && shared@[k] == a;
        assert(row[shared@[k] as int]);
    }
    if p.drags[c][a as int] {
        if row[a as int] {
            let (i, j) = choose|i: int, j: int|
                0 <= i < j < p.n() && #[trigger] p.drags[i][a as int]
                    && #[trigger] p.drags[j][a as int];
            let d = if i == c {
                j
            } else {
                i
            };
            assert(d != c && p.drags[d][a as int]);
        }
        if exists|d: int| 0 <= d < p.n() && d != c && #[trigger] p.drags[d][a as int] {
            let d = choose|d: int| 0 <= d < p.n() && d != c && #[trigger] p.drags[d][a as int];
            if d < c {
                assert(p.drags[d][a as int] && p.drags[c][a as int]);
            } else {
                assert(p.drags[c][a as int] && p.drags[d][a as int]);
            }
            assert(row[a as int]);
        }
    }
}

/// A problem without ancestors and a problem with another target keep everything else.
pub proof fn problems_keep_the_rest(
    target: Target,
    candidates: Vec<Candidate>,
    bare: SelectionProblem,
    problem: &SelectionProblem,
    other: Target,
    changed: SelectionProblem,
    has: bool,
    private: bool,
    shared: bool,
)
    requires
        problem.inv(),
        call_ensures(SelectionProblem::new_no_ancestors, (target, candidates), bare),
        call_ensures(SelectionProblem::with_target, (problem, other), changed),
        call_ensures(SelectionProblem::has_ancestors, (problem,), has),
        call_ensures(SelectionProblem::has_private_ancestors, (problem,), private),
        call_ensures(SelectionProblem::has_shared_ancestors, (problem,), shared),
    ensures
        bare@.target == target && bare@.candidates == candidates@ && bare@.m() == 0,
        changed@.target == other,
        changed@.candidates == problem@.candidates && changed@.ancestors == problem@.ancestors
            && changed@.drags == problem@.drags,
        has <==> exists|c: int, a: int|
            0 <= c < problem@.n() && 0 <= a < problem@.m() && #[trigger] problem@.drags[c][a],
        shared <==> exists|a: int, c: int, d: int|
            0 <= a < problem@.m() && 0 <= c < d < problem@.n() && #[trigger] problem@.drags[c][a]
                && #[trigger] problem@.drags[d][a],
        private <==> exists|c: int, a: int|
            0 <= c < problem@.n() && 0 <= a < problem@.m() && #[trigger] problem@.drags[c][a]
                && forall|d: int|
                0 <= d < problem@.n() && d != c ==> !#[trigger] problem@.drags[d][a],
{
    problem.inv_shape();
    problem@.has_what_is_dragged_in();
}

/// A problem that is made from rows drags in what each row says.
pub proof fn problems_drag_in_their_rows(
    target: Target,
    candidates: Vec<Candidate>,
    ancestors: Vec<(u64, u64)>,
    rows: &Vec<Bitset>,
    problem: SelectionProblem,
    c: int,
)
    requires
        call_ensures(SelectionProblem::from_drags, (target, candidates, ancestors, rows), problem),
        0 <= c < rows@.len(),
    ensures
        problem@.target == target,
        problem@.candidates == candidates@,
        problem@.ancestors == ancestors@,
        problem@.drags.len() == rows@.len(),
        problem@.drags[c] == rows@[c]@,
{
}

/// What a candidate owes for its ancestors by itself is the least that brings them to the target
/// rate, and what a group of ancestors overpays is the least that covers all above it.
pub proof fn local_bumps_are_least(
    problem: &SelectionProblem,
    index: usize,
    bump: u64,
    group: (u64, u64),
    surplus: u64,
    paid: int,
)
    requires
        problem.inv(),
        index < problem@.n(),
        call_ensures(SelectionProblem::local_bump, (problem, index), bump),
        call_ensures(SelectionProblem::ancestor_surplus, (problem, group), surplus),
        problem@.target.fee.rate.fee_wu(problem@.all_ancestor_weight()) <= u64::MAX,
        problem@.target.fee.rate.fee_wu(group.0 as int) <= u64::MAX,
        paid >= 0,
    ensures
        ({
            let p = problem@;
            let row = p.drags[index as int];
            paid >= bump <==> (sums::over(row, |a: int| p.ancestors[a].1 as int) + paid) * 4000
                >= sums::over(row, |a: int| p.ancestors[a].0 as int) * p.target.fee.rate@
        }),
        paid >= surplus <==> (group.1 - paid) * 4000 <= group.0 * problem@.target.fee.rate@,
{
    problem.inv_shape();
    let p = problem@;
    let c = index as int;
    let alone = p.alone(c);
    let row = p.drags[c];
    assert forall|a: int| 0 <= a < p.m() implies #[trigger] p.union(alone)[a] == row[a] by {
        if p.dragged(alone, a) {
            let d = choose|d: int| 0 <= d < p.n() && alone[d] && #[trigger] p.drags[d][a];
            assert(d == c);
        }
        if row[a] {
            assert(alone[c] && p.drags[c][a]);
        }
    }
    assert(p.union(alone) =~= row);
    p.selection_bounded(alone);
    p.target.fee.rate.fee_monotone(p.ancestor_weight(alone), p.all_ancestor_weight());
    p.bump_is_least(alone, paid);
    crate::model::ProblemView::shortfall_is_least(
        p.target.fee.rate,
        group.0 as int,
        group.1 as int,
        paid,
    );
}

} // verus!
