//! What sets of indices hold.
use crate::bitset;
use crate::bitset::Bitset;
use vstd::prelude::*;

verus! {

/// Two ascending lists of the same set are the same.
pub proof fn lists_are_unique(a: Seq<usize>, b: Seq<usize>, s: Seq<bool>)
    requires
        bitset::lists(a, s),
        bitset::lists(b, s),
    ensures
        a == b,
{
    list_is_prefix(a, b, s, a.len() as int);
    list_is_prefix(b, a, s, b.len() as int);
    assert(a =~= b);
}

proof fn list_is_prefix(a: Seq<usize>, b: Seq<usize>, s: Seq<bool>, k: int)
    requires
        bitset::lists(a, s),
        bitset::lists(b, s),
        0 <= k <= a.len(),
    ensures
        k <= b.len(),
        forall|i: int| 0 <= i < k ==> #[trigger] a[i] == b[i],
    decreases k,
{
    if k > 0 {
        list_is_prefix(a, b, s, k - 1);
        let x = a[k - 1];
        assert(s[x as int]);
        assert(b.contains(x));
        let at = choose|at: int| 0 <= at < b.len() && b[at] == x;
        if at < k - 1 {
            assert(a[at] == b[at]);
            assert(a[at] < a[k - 1]);
        }
        let y = b[k - 1];
        assert(s[y as int]);
        assert(a.contains(y));
        let other = choose|other: int| 0 <= other < a.len() && a[other] == y;
        if other < k - 1 {
            assert(a[other] == b[other]);
            assert(b[other] < b[k - 1]);
        }
        if at > k - 1 {
            assert(b[k - 1] < b[at]);
            if other > k - 1 {
                assert(a[k - 1] < a[other]);
            }
        }
    }
}

/// A set holds what was inserted and not removed since; each tells whether it changed the set, and
/// the number of what it holds changes by one only then.
pub proof fn sets_hold_what_was_inserted<'b>(
    more: &'b mut Bitset,
    less: &'b mut Bitset,
    index: usize,
    i: usize,
    inserted: bool,
    removed: bool,
    contains: bool,
    before: usize,
    after: usize,
    fewer: usize,
    empty: bool,
)
    requires
        old(less)@ == old(more)@,
        index < old(more)@.len(),
        i < old(more)@.len(),
        call_ensures(Bitset::insert, (more, index), inserted),
        call_ensures(Bitset::remove, (less, index), removed),
        call_ensures(Bitset::contains, (&*old(more), i), contains),
        call_ensures(Bitset::len, (&*old(more),), before),
        call_ensures(Bitset::len, (&*final(more),), after),
        call_ensures(Bitset::len, (&*final(less),), fewer),
        call_ensures(Bitset::is_empty, (&*old(more),), empty),
    ensures
        contains <==> old(more)@[i as int],
        inserted <==> !old(more)@[index as int],
        removed <==> old(more)@[index as int],
        final(more)@[i as int] <==> i == index || old(more)@[i as int],
        final(less)@[i as int] <==> i != index && old(more)@[i as int],
        after == before + (if inserted {
            1int
        } else {
            0
        }),
        fewer == before - (if removed {
            1int
        } else {
            0
        }),
        contains ==> !empty,
        before == 0 ==> !contains,
        before > 0 ==> !empty,
{
    let s = old(more)@;
    let k = index as int;
    if s[k] {
        let t = s.update(k, false);
        bitset::size_insert(t, k);
        assert(t.update(k, true) =~= s);
        assert(s.update(k, true) =~= s);
    } else {
        bitset::size_insert(s, k);
        assert(s.update(k, false) =~= s);
    }
    if s[i as int] {
        let t = s.update(i as int, false);
        bitset::size_insert(t, i as int);
        bitset::size_bounded(t, t);
        assert(t.update(i as int, true) =~= s);
    }
    if empty {
        crate::sums::lemma_sum_zero(s.len() as int, |i: int| if s[i] { 1int } else { 0 });
    }
}

/// A set lists what it holds once, ascending.
pub proof fn sets_list_what_they_hold(set: &Bitset, list: Vec<usize>, i: usize)
    requires
        call_ensures(Bitset::iter, (set,), list),
        i < set@.len(),
    ensures
        list@.contains(i) <==> set@[i as int],
        forall|j: int, k: int|
            0 <= j < k < list@.len() ==> #[trigger] list@[j] < #[trigger] list@[k],
{
    if list@.contains(i) {
        let k = choose|k: int| 0 <= k < list@.len() && list@[k] == i;
        assert(set@[list@[k] as int]);
    }
}

/// A set is within another of the same length if that holds all that it holds, and a set of which
/// none is held is empty.
pub proof fn subsets_are_held(a: Seq<bool>, b: Seq<bool>)
    requires
        a.len() == b.len(),
    ensures
        bitset::subset(a, b) <==> forall|i: int| 0 <= i < a.len() && #[trigger] a[i] ==> b[i],
        bitset::holds_nothing(a) <==> forall|i: int| 0 <= i < a.len() ==> #[trigger] a[i] == false,
{
}

} // verus!
