//! A stable merge sort of positions by a comparison that the caller supplies.
use vstd::prelude::*;

verus! {

/// Whether position `p` may stand right before `q` in a stable order: of two positions the earlier
/// one comes first unless `after` puts it after the other one.
pub open spec fn step<F: Fn(usize, usize) -> bool>(after: F, p: usize, q: usize) -> bool {
    if p < q {
        call_ensures(after, (p, q), false)
    } else {
        p > q && call_ensures(after, (q, p), true)
    }
}

/// Whether each position of the list may stand right before the next one.
pub open spec fn chained<F: Fn(usize, usize) -> bool>(after: F, list: Seq<usize>) -> bool {
    forall|i: int, j: int|
        0 <= i && j == i + 1 && j < list.len() ==> step(after, #[trigger] list[i], #[trigger] list[j])
}

/// Whether the list holds each position from `lo` up to `hi` once.
pub open spec fn permutes(list: Seq<usize>, lo: int, hi: int) -> bool {
    &&& list.len() == hi - lo
    &&& forall|i: int| 0 <= i < list.len() ==> lo <= #[trigger] list[i] < hi
    &&& forall|i: int, j: int| 0 <= i < j < list.len() ==> #[trigger] list[i] != #[trigger] list[j]
}

/// Merges two lists of positions, where those of the first are all lower.
fn merge<F: Fn(usize, usize) -> bool>(
    after: &F,
    left: &Vec<usize>,
    right: &Vec<usize>,
    Ghost(lo): Ghost<int>,
    Ghost(mid): Ghost<int>,
    Ghost(hi): Ghost<int>,
) -> (out: Vec<usize>)
    requires
        lo <= mid <= hi <= usize::MAX,
        permutes(left@, lo, mid),
        permutes(right@, mid, hi),
        chained(*after, left@),
        chained(*after, right@),
        forall|p: usize, q: usize| lo <= p < q < hi ==> call_requires(*after, (p, q)),
    ensures
        permutes(out@, lo, hi),
        chained(*after, out@),
{
    let mut out: Vec<usize> = Vec::new();
    let mut i: usize = 0;
    let mut j: usize = 0;
    while i < left.len() || j < right.len()
        invariant
            lo <= mid <= hi <= usize::MAX,
            permutes(left@, lo, mid),
            permutes(right@, mid, hi),
            chained(*after, left@),
            chained(*after, right@),
            forall|p: usize, q: usize| lo <= p < q < hi ==> call_requires(*after, (p, q)),
            i <= left@.len(),
            j <= right@.len(),
            out@.len() == i + j,
            chained(*after, out@),
            forall|a: int, b: int| 0 <= a < b < out@.len() ==> #[trigger] out@[a] != #[trigger] out@[b],
            forall|k: int|
                0 <= k < out@.len() ==> {
                    ||| exists|a: int| 0 <= a < i && #[trigger] left@[a] == out@[k]
                    ||| exists|b: int| 0 <= b < j && #[trigger] right@[b] == #[trigger] out@[k]
                },
            out@.len() > 0 && i < left@.len() ==> step(*after, out@[out@.len() - 1], left@[i as int]),
            out@.len() > 0 && j < right@.len() ==> step(
                *after,
                out@[out@.len() - 1],
                right@[j as int],
            ),
        decreases left@.len() + right@.len() - i - j,
    {
        let ghost before = out@;
        let take_left: bool = if i < left.len() && j < right.len() {
            !after(left[i], right[j])
        } else {
            i < left.len()
        };
        if take_left {
            proof {
                assert forall|k: int| 0 <= k < before.len() implies before[k] != left@[i as int] by {
                    if exists|a: int| 0 <= a < i && #[trigger] left@[a] == before[k] {
                        let a = choose|a: int| 0 <= a < i && #[trigger] left@[a] == before[k];
                        assert(left@[a] != left@[i as int]);
                    } else {
                        let b = choose|b: int| 0 <= b < j && #[trigger] right@[b] == before[k];
                        assert(right@[b] >= mid);
                    }
                }
            }
            out.push(left[i]);
            i = i + 1;
            proof {
                assert(left@[i - 1] == out@[before.len() as int]);
            }
        } else {
            proof {
                assert forall|k: int| 0 <= k < before.len() implies before[k] != right@[j as int] by {
                    if exists|b: int| 0 <= b < j && #[trigger] right@[b] == before[k] {
                        let b = choose|b: int| 0 <= b < j && #[trigger] right@[b] == before[k];
                        assert(right@[b] != right@[j as int]);
                    } else {
                        let a = choose|a: int| 0 <= a < i && #[trigger] left@[a] == before[k];
                        assert(left@[a] < mid);
                    }
                }
            }
            out.push(right[j]);
            j = j + 1;
            proof {
                assert(right@[j - 1] == out@[before.len() as int]);
            }
        }
        proof {
            assert forall|k: int| 0 <= k < out@.len() implies {
                ||| exists|a: int| 0 <= a < i && #[trigger] left@[a] == out@[k]
                ||| exists|b: int| 0 <= b < j && #[trigger] right@[b] == #[trigger] out@[k]
            } by {
                if k < before.len() {
                    assert(before[k] == out@[k]);
                    if exists|a: int| 0 <= a < i && #[trigger] left@[a] == before[k] {
                        let a = choose|a: int| 0 <= a < i && #[trigger] left@[a] == before[k];
                        assert(left@[a] == out@[k]);
                    }
                }
            }
        }
    }
    proof {
        assert forall|k: int| 0 <= k < out@.len() implies lo <= #[trigger] out@[k] < hi by {
            if exists|a: int| 0 <= a < i && #[trigger] left@[a] == out@[k] {
                let a = choose|a: int| 0 <= a < i && #[trigger] left@[a] == out@[k];
                assert(left@[a] < mid);
            } else {
                let b = choose|b: int| 0 <= b < j && #[trigger] right@[b] == out@[k];
                assert(right@[b] < hi);
            }
        }
    }
    out
}

/// The positions from `lo` up to `hi` in the order that `after` asks for. Positions that it does
/// not tell apart keep their order.
pub fn stable_order<F: Fn(usize, usize) -> bool>(after: &F, lo: usize, hi: usize) -> (out: Vec<
    usize,
>)
    requires
        lo <= hi,
        forall|p: usize, q: usize| lo <= p < q < hi ==> call_requires(*after, (p, q)),
    ensures
        permutes(out@, lo as int, hi as int),
        chained(*after, out@),
    decreases hi - lo,
{
    if hi - lo == 0 {
        return Vec::new();
    }
    if hi - lo == 1 {
        let mut out: Vec<usize> = Vec::new();
        out.push(lo);
        return out;
    }
    let mid: usize = lo + (hi - lo) / 2;
    let left: Vec<usize> = stable_order(after, lo, mid);
    let right: Vec<usize> = stable_order(after, mid, hi);
    merge(after, &left, &right, Ghost(lo as int), Ghost(mid as int), Ghost(hi as int))
}

/// Whether `before` ranks positions below `n` as a strict weak order does.
pub open spec fn weakly_orders(before: spec_fn(usize, usize) -> bool, n: int) -> bool {
    &&& forall|p: usize, q: usize|
        p < n && q < n && #[trigger] before(p, q) ==> !before(q, p)
    &&& forall|p: usize, q: usize, r: usize|
        p < n && q < n && r < n && !#[trigger] before(q, p) && !#[trigger] before(r, q) ==> !before(
            r,
            p,
        )
}

/// Whether the list is in the order of `before`, with positions that it does not tell apart in
/// ascending order.
pub open spec fn in_order(list: Seq<usize>, before: spec_fn(usize, usize) -> bool) -> bool {
    forall|i: int, j: int|
        0 <= i < j < list.len() ==> {
            ||| before(#[trigger] list[i], #[trigger] list[j])
            ||| !before(list[j], list[i]) && list[i] < list[j]
        }
}

/// Where the comparison decides by a strict weak order, what [`stable_order`] returns is sorted by
/// it, and stable.
pub proof fn stable_order_is_sorted<F: Fn(usize, usize) -> bool>(
    after: F,
    before: spec_fn(usize, usize) -> bool,
    list: Seq<usize>,
    n: int,
)
    requires
        n <= usize::MAX,
        weakly_orders(before, n),
        permutes(list, 0, n),
        chained(after, list),
        forall|p: usize, q: usize, b: bool|
            p < n && q < n && #[trigger] call_ensures(after, (p, q), b) ==> b == before(q, p),
    ensures
        in_order(list, before),
{
    assert forall|i: int, j: int| 0 <= i < j < list.len() implies {
        ||| before(#[trigger] list[i], #[trigger] list[j])
        ||| !before(list[j], list[i]) && list[i] < list[j]
    } by {
        chain_reaches(after, before, list, n, i, j);
    }
}

proof fn chain_reaches<F: Fn(usize, usize) -> bool>(
    after: F,
    before: spec_fn(usize, usize) -> bool,
    list: Seq<usize>,
    n: int,
    i: int,
    j: int,
)
    requires
        n <= usize::MAX,
        weakly_orders(before, n),
        permutes(list, 0, n),
        chained(after, list),
        forall|p: usize, q: usize, b: bool|
            p < n && q < n && #[trigger] call_ensures(after, (p, q), b) ==> b == before(q, p),
        0 <= i < j < list.len(),
    ensures
        before(list[i], list[j]) || (!before(list[j], list[i]) && list[i] < list[j]),
    decreases j - i,
{
    let k = j - 1;
    assert(step(after, list[k], list[j]));
    if k > i {
        chain_reaches(after, before, list, n, i, k);
        let (p, q, r) = (list[i], list[k], list[j]);
        assert(!before(q, p));
        assert(!before(r, q));
        assert(!before(r, p));
        if !before(p, r) {
            // The first and the last rank alike, so the one between them ranks like both.
            assert(!before(p, q));
        }
    }
}

} // verus!
