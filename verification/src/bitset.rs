//! Sets of indices below a fixed capacity.
use crate::sums;
use vstd::prelude::*;

verus! {

/// A set of indices below a capacity that is fixed when the set is made.
#[derive(Debug, PartialEq, Eq)]
pub struct Bitset {
    bits: Vec<bool>,
}

impl View for Bitset {
    type V = Seq<bool>;

    /// For each index below the capacity, whether it is in the set.
    closed spec fn view(&self) -> Seq<bool> {
        self.bits@
    }
}

/// Whether every index of `a` is in `b`.
pub open spec fn subset(a: Seq<bool>, b: Seq<bool>) -> bool {
    &&& a.len() == b.len()
    &&& forall|i: int| 0 <= i < a.len() && #[trigger] a[i] ==> b[i]
}

/// Whether no index is in the set.
pub open spec fn holds_nothing(s: Seq<bool>) -> bool {
    forall|i: int| 0 <= i < s.len() ==> !#[trigger] s[i]
}

/// How many indices are in the set.
pub open spec fn size(s: Seq<bool>) -> int {
    sums::sum(s.len() as int, |i: int| if s[i] { 1 } else { 0 })
}

/// Adding an index makes a set larger by one, and no set is larger than its capacity.
pub proof fn size_insert(s: Seq<bool>, k: int)
    requires
        0 <= k < s.len(),
        !s[k],
    ensures
        size(s.update(k, true)) == size(s) + 1,
{
    let t = s.update(k, true);
    sums::lemma_sum_change(
        s.len() as int,
        |i: int| if s[i] { 1int } else { 0 },
        |i: int| if t[i] { 1int } else { 0 },
        k,
    );
}

/// No set is larger than its capacity, and a smaller set is not larger.
pub proof fn size_bounded(s: Seq<bool>, t: Seq<bool>)
    requires
        subset(s, t),
    ensures
        0 <= size(s) <= size(t) <= t.len(),
{
    let f = |i: int| if s[i] { 1int } else { 0 };
    let g = |i: int| if t[i] { 1int } else { 0 };
    sums::lemma_sum_nonneg(s.len() as int, f);
    sums::lemma_sum_le(s.len() as int, f, g);
    sums::lemma_sum_le(s.len() as int, g, |i: int| 1int);
    sum_of_ones(s.len() as int);
}

proof fn sum_of_ones(n: int)
    requires
        n >= 0,
    ensures
        sums::sum(n, |i: int| 1int) == n,
    decreases n,
{
    if n > 0 {
        sum_of_ones(n - 1);
    }
}

/// Whether `list` holds the indices of the set in ascending order.
pub open spec fn lists(list: Seq<usize>, s: Seq<bool>) -> bool {
    &&& forall|k: int| 0 <= k < list.len() ==> #[trigger] list[k] < s.len() && s[list[k] as int]
    &&& forall|j: int, k: int| 0 <= j < k < list.len() ==> #[trigger] list[j] < #[trigger] list[k]
    &&& forall|i: int| 0 <= i < s.len() && #[trigger] s[i] ==> list.contains(i as usize)
}

impl Clone for Bitset {
    fn clone(&self) -> (r: Self)
        ensures
            r@ == self@,
    {
        Bitset { bits: self.bits.clone() }
    }
}

impl Bitset {
    /// An empty set of indices below `capacity`.
    pub fn with_capacity(capacity: usize) -> (r: Self)
        ensures
            r@ == Seq::new(capacity as nat, |i: int| false),
    {
        let mut bits: Vec<bool> = Vec::new();
        let mut i: usize = 0;
        while i < capacity
            invariant
                i <= capacity,
                bits@ == Seq::new(i as nat, |i: int| false),
            decreases capacity - i,
        {
            bits.push(false);
            i = i + 1;
        }
        Bitset { bits }
    }

    /// The number of indices the set can tell apart.
    pub fn capacity(&self) -> (r: usize)
        ensures
            r == self@.len(),
    {
        self.bits.len()
    }

    /// Whether `index` is in the set. Nothing beyond the capacity is.
    pub fn contains(&self, index: usize) -> (r: bool)
        ensures
            r == (index < self@.len() && self@[index as int]),
    {
        index < self.bits.len() && self.bits[index]
    }

    /// Adds `index`, and tells whether it was not in the set before.
    pub fn insert(&mut self, index: usize) -> (inserted: bool)
        requires
            index < old(self)@.len(),
        ensures
            final(self)@ == old(self)@.update(index as int, true),
            inserted == !old(self)@[index as int],
    {
        let inserted: bool = !self.bits[index];
        self.bits.set(index, true);
        inserted
    }

    /// Removes `index`, and tells whether it was in the set before.
    pub fn remove(&mut self, index: usize) -> (removed: bool)
        ensures
            removed == (index < old(self)@.len() && old(self)@[index as int]),
            final(self)@ == (if index < old(self)@.len() {
                old(self)@.update(index as int, false)
            } else {
                old(self)@
            }),
    {
        if index < self.bits.len() {
            let removed: bool = self.bits[index];
            self.bits.set(index, false);
            removed
        } else {
            false
        }
    }

    /// Adds every index of another set of the same capacity.
    pub fn insert_all(&mut self, other: &Bitset)
        requires
            other@.len() == old(self)@.len(),
        ensures
            final(self)@ == Seq::new(old(self)@.len(), |i: int| old(self)@[i] || other@[i]),
    {
        let ghost before = self@;
        let mut i: usize = 0;
        while i < other.bits.len()
            invariant
                other.bits@.len() == before.len(),
                i <= before.len(),
                self@.len() == before.len(),
                forall|j: int| 0 <= j < i ==> #[trigger] self@[j] == (before[j] || other@[j]),
                forall|j: int| i <= j < before.len() ==> #[trigger] self@[j] == before[j],
            decreases before.len() - i,
        {
            if other.bits[i] {
                self.insert(i);
            }
            i = i + 1;
        }
        proof {
            assert(self@ =~= Seq::new(before.len(), |i: int| before[i] || other@[i]));
        }
    }

    /// The indices in the set, ascending.
    pub fn iter(&self) -> (list: Vec<usize>)
        ensures
            lists(list@, self@),
    {
        let mut list: Vec<usize> = Vec::new();
        let mut i: usize = 0;
        while i < self.bits.len()
            invariant
                i <= self.bits@.len(),
                forall|k: int|
                    0 <= k < list@.len() ==> #[trigger] list@[k] < i && self.bits@[list@[k] as int],
                forall|j: int, k: int|
                    0 <= j < k < list@.len() ==> #[trigger] list@[j] < #[trigger] list@[k],
                forall|j: int|
                    0 <= j < i && #[trigger] self.bits@[j] ==> list@.contains(j as usize),
            decreases self.bits@.len() - i,
        {
            let ghost before = list@;
            if self.bits[i] {
                list.push(i);
            }
            proof {
                assert forall|j: int| 0 <= j < i + 1 && #[trigger] self.bits@[j] implies list@.contains(
                    j as usize,
                ) by {
                    if j < i {
                        let k = choose|k: int| 0 <= k < before.len() && before[k] == j as usize;
                        assert(list@[k] == j as usize);
                    } else {
                        assert(list@[before.len() as int] == j as usize);
                    }
                }
            }
            i = i + 1;
        }
        list
    }

    /// The number of indices in the set.
    pub fn len(&self) -> (r: usize)
        ensures
            r == size(self@),
    {
        let mut count: usize = 0;
        let mut i: usize = 0;
        let ghost s = self@;
        while i < self.bits.len()
            invariant
                s == self.bits@,
                i <= s.len(),
                count <= i,
                count == sums::sum(i as int, |i: int| if s[i] { 1 } else { 0 }),
            decreases s.len() - i,
        {
            if self.bits[i] {
                count = count + 1;
            }
            i = i + 1;
        }
        count
    }

    /// Whether the set is empty.
    pub fn is_empty(&self) -> (r: bool)
        ensures
            r == holds_nothing(self@),
    {
        let mut i: usize = 0;
        while i < self.bits.len()
            invariant
                i <= self.bits@.len(),
                forall|j: int| 0 <= j < i ==> !#[trigger] self.bits@[j],
            decreases self.bits@.len() - i,
        {
            if self.bits[i] {
                assert(self@[i as int]);
                return false;
            }
            i = i + 1;
        }
        true
    }
}

} // verus!
