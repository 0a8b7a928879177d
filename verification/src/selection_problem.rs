//! What a selection is made for and from.
use crate::ancestor_totals::AncestorTotals;
use crate::bitset::Bitset;
use crate::candidate::Candidate;
use crate::coin_selector::CoinSelector;
use crate::feerate::FeeRate;
use crate::model::ProblemView;
use crate::sums;
use crate::target::Target;
use vstd::prelude::*;

verus! {

/// Target, candidates and unconfirmed ancestors of one coin-selection run.
///
/// A selector borrows it for its lifetime, so that they stay fixed while it runs.
#[derive(Debug)]
pub struct SelectionProblem {
    target: Target,
    candidates: Vec<Candidate>,
    /// Weight and fee of each unconfirmed ancestor.
    ancestors: Vec<(u64, u64)>,
    /// The ancestors each candidate drags in, ascending.
    drags_in: Vec<Vec<u32>>,
    /// Those that another candidate drags in too, ascending.
    shared_drags_in: Vec<Vec<u32>>,
    /// Summed weight and fee of those that no other candidate drags in.
    private: Vec<(u64, u64)>,
    has_private: bool,
    has_shared: bool,
}

/// Whether `list` holds the indices of the set in ascending order.
pub open spec fn lists_ancestors(list: Seq<u32>, s: Seq<bool>) -> bool {
    &&& forall|k: int| 0 <= k < list.len() ==> #[trigger] list[k] < s.len() && s[list[k] as int]
    &&& forall|j: int, k: int| 0 <= j < k < list.len() ==> #[trigger] list[j] < #[trigger] list[k]
    &&& forall|a: int| 0 <= a < s.len() && #[trigger] s[a] ==> list.contains(a as u32)
}

/// A set is listed in ascending order in one way only.
pub proof fn lists_are_unique(a: Seq<u32>, b: Seq<u32>, s: Seq<bool>)
    requires
        lists_ancestors(a, s),
        lists_ancestors(b, s),
        s.len() <= u32::MAX,
    ensures
        a == b,
{
    lists_agree_to(a, b, s, a.len() as int);
    lists_agree_to(b, a, s, b.len() as int);
    assert(a =~= b);
}

proof fn lists_agree_to(a: Seq<u32>, b: Seq<u32>, s: Seq<bool>, k: int)
    requires
        lists_ancestors(a, s),
        lists_ancestors(b, s),
        s.len() <= u32::MAX,
        0 <= k <= a.len(),
    ensures
        k <= b.len(),
        forall|i: int| 0 <= i < k ==> #[trigger] a[i] == b[i],
    decreases k,
{
    if k > 0 {
        lists_agree_to(a, b, s, k - 1);
        let x = a[k - 1];
        assert(s[x as int]);
        assert(b.contains(x));
        let j = choose|j: int| 0 <= j < b.len() && b[j] == x;
        if j < k - 1 {
            assert(a[j] < a[k - 1]);
        }
        let y = b[k - 1];
        assert(s[y as int]);
        assert(a.contains(y));
        let i = choose|i: int| 0 <= i < a.len() && a[i] == y;
        if i < k - 1 {
            assert(b[i] < b[k - 1]);
        }
        if i > k - 1 {
            assert(a[k - 1] < a[i]);
        }
        if j > k - 1 {
            assert(b[k - 1] < b[j]);
        }
    }
}

/// What a list of ascending indices below `m` holds, as a set.
spec fn listed(list: Seq<u32>, m: nat) -> Seq<bool> {
    Seq::new(m, |a: int| list.contains(a as u32))
}

/// For each ancestor, whether candidate `c` drags it in and another candidate does too.
pub open spec fn shared_row(p: ProblemView, c: int) -> Seq<bool> {
    Seq::new(p.ancestors.len(), |a: int| p.drags[c][a] && p.is_shared(a))
}

impl View for SelectionProblem {
    type V = ProblemView;

    closed spec fn view(&self) -> ProblemView {
        ProblemView {
            target: self.target,
            candidates: self.candidates@,
            ancestors: self.ancestors@,
            drags: Seq::new(
                self.candidates@.len(),
                |c: int| listed(self.drags_in@[c]@, self.ancestors@.len()),
            ),
        }
    }
}

impl SelectionProblem {
    /// Whether the stored lists and sums are those of the candidates and their ancestors.
    pub closed spec fn inv(&self) -> bool {
        &&& self@.wf()
        &&& self.drags_in@.len() == self.candidates@.len()
        &&& self.shared_drags_in@.len() == self.candidates@.len()
        &&& self.private@.len() == self.candidates@.len()
        &&& self.ancestors@.len() <= u32::MAX
        &&& forall|c: int|
            0 <= c < self.candidates@.len() ==> lists_ancestors(
                #[trigger] self.drags_in@[c]@,
                self@.drags[c],
            )
        &&& forall|c: int|
            0 <= c < self.candidates@.len() ==> lists_ancestors(
                #[trigger] self.shared_drags_in@[c]@,
                shared_row(self@, c),
            )
        &&& forall|c: int|
            0 <= c < self.candidates@.len() ==> #[trigger] self.private@[c].0
                == self@.private_weight(c) && self.private@[c].1 == self@.private_fee(c)
        &&& self.has_private == self@.has_private()
        &&& self.has_shared == self@.has_shared()
    }

    /// The table of dragged-in ancestors has the right shape, and ancestors are few enough to be
    /// counted in 32 bits.
    pub proof fn inv_shape(&self)
        requires
            self.inv(),
        ensures
            self@.wf(),
            self@.m() <= u32::MAX,
            self@.n() <= usize::MAX,
    {
        assert(self.candidates.len() == self@.n());
    }

    /// What this problem is funding.
    pub fn target(&self) -> (r: Target)
        ensures
            r == self@.target,
    {
        self.target
    }

    /// All candidates, in construction order.
    pub fn candidates(&self) -> (r: &[Candidate])
        ensures
            r@ == self@.candidates,
    {
        self.candidates.as_slice()
    }

    /// Candidate at `index`.
    pub fn candidate(&self, index: usize) -> (r: Candidate)
        requires
            index < self@.n(),
        ensures
            r == self@.candidates[index as int],
    {
        self.candidates[index]
    }

    /// Number of candidates.
    pub fn len(&self) -> (r: usize)
        ensures
            r == self@.n(),
    {
        self.candidates.len()
    }

    /// Whether there are no candidates.
    pub fn is_empty(&self) -> (r: bool)
        ensures
            r == (self@.n() == 0),
    {
        self.candidates.len() == 0
    }

    /// Weight and fee of each unconfirmed ancestor.
    pub fn ancestors(&self) -> (r: &[(u64, u64)])
        ensures
            r@ == self@.ancestors,
    {
        self.ancestors.as_slice()
    }

    /// The ancestors that selecting candidate `index` drags in, ascending.
    pub fn drags_in(&self, index: usize) -> (r: &[u32])
        requires
            self.inv(),
            index < self@.n(),
        ensures
            lists_ancestors(r@, self@.drags[index as int]),
    {
        self.drags_in[index].as_slice()
    }

    /// The ancestors that candidate `index` drags in and some other candidate does too, ascending.
    pub fn shared_drags_in(&self, index: usize) -> (r: &[u32])
        requires
            self.inv(),
            index < self@.n(),
        ensures
            lists_ancestors(r@, shared_row(self@, index as int)),
    {
        self.shared_drags_in[index].as_slice()
    }

    /// Summed weight and fee of the ancestors that candidate `index` alone drags in.
    pub fn private_ancestors(&self, index: usize) -> (r: (u64, u64))
        requires
            self.inv(),
            index < self@.n(),
        ensures
            r.0 == self@.private_weight(index as int),
            r.1 == self@.private_fee(index as int),
    {
        self.private[index]
    }

    /// Whether some candidate drags in an ancestor.
    pub fn has_ancestors(&self) -> (r: bool)
        requires
            self.inv(),
        ensures
            r == (self@.has_private() || self@.has_shared()),
    {
        self.has_private || self.has_shared
    }

    /// Whether some candidate drags in an ancestor that no other candidate does.
    pub fn has_private_ancestors(&self) -> (r: bool)
        requires
            self.inv(),
        ensures
            r == self@.has_private(),
    {
        self.has_private
    }

    /// Whether several candidates drag in some ancestor.
    pub fn has_shared_ancestors(&self) -> (r: bool)
        requires
            self.inv(),
        ensures
            r == self@.has_shared(),
    {
        self.has_shared
    }

    /// What ancestors of total weight and fee `group` pay above the target rate, in whole satoshis
    /// rounded up.
    pub fn ancestor_surplus(&self, group: (u64, u64)) -> (surplus: u64)
        ensures
            surplus == ProblemView::surplus(
                self@.target.fee.rate,
                group.0 as int,
                group.1 as int,
            ),
    {
        let rate: u64 = self.target.fee.rate.sat_per_kvb();
        proof {
            let w = group.0;
            assert(0 <= w * rate <= 0xffff_ffff_ffff_ffff * 0xffff_ffff_ffff_ffff)
                by (nonlinear_arith)
                requires
                    0 <= w <= 0xffff_ffff_ffff_ffff,
                    0 <= rate <= 0xffff_ffff_ffff_ffff,
            ;
        }
        let owed: u128 = group.0 as u128 * rate as u128;
        let paid: u128 = group.1 as u128 * 4000;
        if paid <= owed {
            0
        } else {
            ((paid - owed + 3999) / 4000) as u64
        }
    }
}

/// What ancestors of total weight and fee `group` lack to reach `rate`.
pub(crate) fn ancestor_shortfall(rate: FeeRate, group: (u64, u64)) -> (r: u64)
    ensures
        r == ProblemView::shortfall(rate, group.0 as int, group.1 as int),
{
    rate.implied_fee_wu(group.0).saturating_sub(group.1)
}

/// For each index, whether it is in both sets.
spec fn both(s: Seq<bool>, t: Seq<bool>) -> Seq<bool> {
    Seq::new(s.len(), |i: int| s[i] && t[i])
}

/// For each index, whether it is in the first set only.
spec fn without(s: Seq<bool>, t: Seq<bool>) -> Seq<bool> {
    Seq::new(s.len(), |i: int| s[i] && !t[i])
}

/// Whether `list` holds, ascending, the indices of the set that are below `k`.
spec fn lists_below(list: Seq<u32>, s: Seq<bool>, k: int) -> bool {
    &&& forall|i: int| 0 <= i < list.len() ==> #[trigger] list[i] < k && s[list[i] as int]
    &&& forall|i: int, j: int| 0 <= i < j < list.len() ==> #[trigger] list[i] < #[trigger] list[j]
    &&& forall|a: int| 0 <= a < k && #[trigger] s[a] ==> list.contains(a as u32)
}

proof fn lists_next(list: Seq<u32>, s: Seq<bool>, k: int)
    requires
        0 <= k < s.len(),
        k <= u32::MAX,
        lists_below(list, s, k),
    ensures
        s[k] ==> lists_below(list.push(k as u32), s, k + 1),
        !s[k] ==> lists_below(list, s, k + 1),
{
    if s[k] {
        let next = list.push(k as u32);
        assert forall|a: int| 0 <= a < k + 1 && #[trigger] s[a] implies next.contains(a as u32) by {
            if a < k {
                let i = choose|i: int| 0 <= i < list.len() && list[i] == a as u32;
                assert(next[i] == a as u32);
            } else {
                assert(next[list.len() as int] == a as u32);
            }
        }
    }
}

/// The dragged-in ancestors of `row` as a list, those of them that are shared, and the summed
/// weight and fee of the others, with whether there are any.
fn split_row(row: &Bitset, shared: &Vec<bool>, ancestors: &Vec<(u64, u64)>) -> (r: (
    Vec<u32>,
    Vec<u32>,
    (u64, u64),
    bool,
))
    requires
        row@.len() == ancestors@.len(),
        shared@.len() == ancestors@.len(),
        ancestors@.len() <= u32::MAX,
        sums::sum(ancestors@.len() as int, |a: int| ancestors@[a].0 as int) <= u64::MAX,
        sums::sum(ancestors@.len() as int, |a: int| ancestors@[a].1 as int) <= u64::MAX,
    ensures
        lists_ancestors(r.0@, row@),
        lists_ancestors(r.1@, both(row@, shared@)),
        r.2.0 == sums::over(without(row@, shared@), |a: int| ancestors@[a].0 as int),
        r.2.1 == sums::over(without(row@, shared@), |a: int| ancestors@[a].1 as int),
        r.3 == exists|a: int| 0 <= a < row@.len() && #[trigger] without(row@, shared@)[a],
{
    let ghost m = ancestors@.len() as int;
    let ghost own = without(row@, shared@);
    let ghost all = both(row@, shared@);
    let ghost w = |a: int| if own[a] { (|a: int| ancestors@[a].0 as int)(a) } else { 0 };
    let ghost f = |a: int| if own[a] { (|a: int| ancestors@[a].1 as int)(a) } else { 0 };
    proof {
        sums::lemma_sum_le(m, w, |a: int| ancestors@[a].0 as int);
        sums::lemma_sum_le(m, f, |a: int| ancestors@[a].1 as int);
    }
    let mut list: Vec<u32> = Vec::new();
    let mut shared_list: Vec<u32> = Vec::new();
    let mut weight: u64 = 0;
    let mut fee: u64 = 0;
    let mut any: bool = false;
    let mut a: usize = 0;
    while a < ancestors.len()
        invariant
            m == ancestors@.len(),
            row@.len() == m,
            shared@.len() == m,
            m <= u32::MAX,
            own == without(row@, shared@),
            all == both(row@, shared@),
            w == (|a: int| if own[a] { (|a: int| ancestors@[a].0 as int)(a) } else { 0 }),
            f == (|a: int| if own[a] { (|a: int| ancestors@[a].1 as int)(a) } else { 0 }),
            sums::sum(m, w) <= u64::MAX,
            sums::sum(m, f) <= u64::MAX,
            a <= m,
            lists_below(list@, row@, a as int),
            lists_below(shared_list@, all, a as int),
            weight == sums::sum(a as int, w),
            fee == sums::sum(a as int, f),
            any == exists|i: int| 0 <= i < a && #[trigger] own[i],
        decreases m - a,
    {
        proof {
            lists_next(list@, row@, a as int);
            lists_next(shared_list@, all, a as int);
            sums::lemma_sum_prefix(a + 1, m, w);
            sums::lemma_sum_prefix(a + 1, m, f);
        }
        if row.contains(a) {
            list.push(a as u32);
            if shared[a] {
                shared_list.push(a as u32);
            } else {
                weight = weight + ancestors[a].0;
                fee = fee + ancestors[a].1;
                assert(own[a as int]);
                any = true;
            }
        }
        a = a + 1;
    }
    (list, shared_list, (weight, fee), any)
}

/// How many of the rows hold ancestor `a`.
fn count_draggers(rows: &Vec<Bitset>, a: usize) -> (count: usize)
    requires
        forall|c: int| 0 <= c < rows@.len() ==> a < #[trigger] rows@[c]@.len(),
    ensures
        count == sums::sum(
            rows@.len() as int,
            |c: int| if rows@[c]@[a as int] { 1int } else { 0 },
        ),
{
    let ghost f = |c: int| if rows@[c]@[a as int] { 1int } else { 0 };
    let mut count: usize = 0;
    let mut c: usize = 0;
    while c < rows.len()
        invariant
            f == (|c: int| if rows@[c]@[a as int] { 1int } else { 0 }),
            forall|c: int| 0 <= c < rows@.len() ==> a < #[trigger] rows@[c]@.len(),
            c <= rows@.len(),
            count <= c,
            count == sums::sum(c as int, f),
        decreases rows@.len() - c,
    {
        if rows[c].contains(a) {
            count = count + 1;
        }
        c = c + 1;
    }
    count
}

/// The view of a problem whose dragged-in ancestors are given as one set for each candidate.
pub open spec fn problem_of(
    target: Target,
    candidates: Seq<Candidate>,
    ancestors: Seq<(u64, u64)>,
    rows: Seq<Bitset>,
) -> ProblemView {
    ProblemView { target, candidates, ancestors, drags: Seq::new(rows.len(), |c: int| rows[c]@) }
}

impl SelectionProblem {
    /// A problem from the ancestors that each candidate drags in, given as one set for each.
    pub fn from_drags(
        target: Target,
        candidates: Vec<Candidate>,
        ancestors: Vec<(u64, u64)>,
        rows: &Vec<Bitset>,
    ) -> (r: SelectionProblem)
        requires
            rows@.len() == candidates@.len(),
            forall|c: int| 0 <= c < rows@.len() ==> #[trigger] rows@[c]@.len() == ancestors@.len(),
            ancestors@.len() <= u32::MAX,
            sums::sum(ancestors@.len() as int, |a: int| ancestors@[a].0 as int) <= u64::MAX,
            sums::sum(ancestors@.len() as int, |a: int| ancestors@[a].1 as int) <= u64::MAX,
        ensures
            r.inv(),
            r@ == problem_of(target, candidates@, ancestors@, rows@),
    {
        let ghost p = problem_of(target, candidates@, ancestors@, rows@);
        let ghost m = ancestors@.len() as int;
        let ghost n = candidates@.len() as int;
        let mut shared: Vec<bool> = Vec::new();
        let mut has_shared: bool = false;
        while shared.len() < ancestors.len()
            invariant
                m == ancestors@.len(),
                n == rows@.len(),
                p == problem_of(target, candidates@, ancestors@, rows@),
                n == candidates@.len(),
                forall|c: int| 0 <= c < rows@.len() ==> #[trigger] rows@[c]@.len() == m,
                shared@.len() <= m,
                forall|a: int| 0 <= a < shared@.len() ==> #[trigger] shared@[a] == p.is_shared(a),
                has_shared == exists|a: int|
                    0 <= a < shared@.len() && #[trigger] p.is_shared(a),
            decreases m - shared@.len(),
        {
            let a: usize = shared.len();
            let count: usize = count_draggers(rows, a);
            proof {
                let all = p.everything();
                let f = |c: int| if p.drags[c][a as int] { 1int } else { 0 };
                sums::lemma_sum_ext(
                    n,
                    |c: int| if rows@[c]@[a as int] { 1int } else { 0 },
                    |c: int| if all[c] { f(c) } else { 0 },
                );
                assert(count == p.draggers(all, a as int));
            }
            shared.push(count >= 2);
            if count >= 2 {
                assert(p.is_shared(a as int));
                has_shared = true;
            }
        }
        let mut drags_in: Vec<Vec<u32>> = Vec::new();
        let mut shared_drags_in: Vec<Vec<u32>> = Vec::new();
        let mut private: Vec<(u64, u64)> = Vec::new();
        let mut has_private: bool = false;
        let mut c: usize = 0;
        while c < rows.len()
            invariant
                m == ancestors@.len(),
                n == rows@.len(),
                p == problem_of(target, candidates@, ancestors@, rows@),
                n == candidates@.len(),
                forall|c: int| 0 <= c < rows@.len() ==> #[trigger] rows@[c]@.len() == m,
                m <= u32::MAX,
                sums::sum(m, |a: int| ancestors@[a].0 as int) <= u64::MAX,
                sums::sum(m, |a: int| ancestors@[a].1 as int) <= u64::MAX,
                shared@.len() == m,
                forall|a: int| 0 <= a < m ==> #[trigger] shared@[a] == p.is_shared(a),
                c <= n,
                drags_in@.len() == c,
                shared_drags_in@.len() == c,
                private@.len() == c,
                forall|i: int|
                    0 <= i < c ==> lists_ancestors(#[trigger] drags_in@[i]@, p.drags[i]),
                forall|i: int|
                    0 <= i < c ==> lists_ancestors(
                        #[trigger] shared_drags_in@[i]@,
                        shared_row(p, i),
                    ),
                forall|i: int|
                    0 <= i < c ==> #[trigger] private@[i].0 == p.private_weight(i) && private@[i].1
                        == p.private_fee(i),
                has_private == exists|i: int, a: int|
                    0 <= i < c && 0 <= a < m && #[trigger] p.is_private(i, a),
            decreases n - c,
        {
            let (list, shared_list, sum, any_private) = split_row(&rows[c], &shared, &ancestors);
            proof {
                assert(p.drags[c as int] == rows@[c as int]@);
                assert(both(rows@[c as int]@, shared@) =~= shared_row(p, c as int));
                assert(without(rows@[c as int]@, shared@) =~= p.privates(c as int));
            }
            proof {
                let own = p.privates(c as int);
                if any_private {
                    let a = choose|a: int| 0 <= a < m && #[trigger] own[a];
                    assert(p.is_private(c as int, a));
                }
                assert forall|a: int| 0 <= a < m && #[trigger] p.is_private(c as int, a) implies any_private by {
                    assert(own[a]);
                }
            }
            if any_private {
                has_private = true;
            }
            drags_in.push(list);
            shared_drags_in.push(shared_list);
            private.push(sum);
            c = c + 1;
        }
        let r = SelectionProblem {
            target,
            candidates,
            ancestors,
            drags_in,
            shared_drags_in,
            private,
            has_private,
            has_shared,
        };
        proof {
            assert forall|c: int| 0 <= c < n implies #[trigger] r@.drags[c] =~= p.drags[c] by {
                let list = drags_in@[c]@;
                assert(lists_ancestors(list, p.drags[c]));
                assert forall|a: int| 0 <= a < m implies list.contains(a as u32) == p.drags[c][a] by {
                    if list.contains(a as u32) {
                        let k = choose|k: int| 0 <= k < list.len() && list[k] == a as u32;
                        assert(p.drags[c][list[k] as int]);
                    }
                }
            }
            assert(r@.drags =~= p.drags);
            assert(r@ == p);
        }
        r
    }

    /// Whether two candidates drag in the same ancestors.
    pub fn drag_in_the_same(&self, i: usize, j: usize) -> (same: bool)
        requires
            self.inv(),
            i < self@.n(),
            j < self@.n(),
        ensures
            same == (self@.drags[i as int] == self@.drags[j as int]),
    {
        let (a, b) = (self.drags_in(i), self.drags_in(j));
        proof {
            self.inv_shape();
            if self@.drags[i as int] == self@.drags[j as int] {
                lists_are_unique(a@, b@, self@.drags[i as int]);
            }
        }
        if a.len() != b.len() {
            return false;
        }
        let mut k: usize = 0;
        while k < a.len()
            invariant
                a@.len() == b@.len(),
                k <= a@.len(),
                forall|l: int| 0 <= l < k ==> #[trigger] a@[l] == b@[l],
                self@.drags[i as int] == self@.drags[j as int] ==> a@ == b@,
            decreases a@.len() - k,
        {
            if a[k] != b[k] {
                return false;
            }
            k = k + 1;
        }
        proof {
            assert(a@ =~= b@);
            let (r, s) = (self@.drags[i as int], self@.drags[j as int]);
            assert forall|x: int| 0 <= x < r.len() implies r[x] == s[x] by {
                if r[x] {
                    let l = choose|l: int| 0 <= l < a@.len() && a@[l] == x as u32;
                    assert(s[b@[l] as int]);
                }
                if s[x] {
                    let l = choose|l: int| 0 <= l < b@.len() && b@[l] == x as u32;
                    assert(r[a@[l] as int]);
                }
            }
            assert(r =~= s);
        }
        true
    }
}

/// A copy of lists.
fn copy_lists(lists: &Vec<Vec<u32>>) -> (r: Vec<Vec<u32>>)
    ensures
        r@.len() == lists@.len(),
        forall|c: int| 0 <= c < lists@.len() ==> #[trigger] r@[c]@ == lists@[c]@,
{
    let mut copies: Vec<Vec<u32>> = Vec::new();
    while copies.len() < lists.len()
        invariant
            copies@.len() <= lists@.len(),
            forall|c: int| 0 <= c < copies@.len() ==> #[trigger] copies@[c]@ == lists@[c]@,
        decreases lists@.len() - copies@.len(),
    {
        let copy: Vec<u32> = lists[copies.len()].clone();
        copies.push(copy);
    }
    copies
}

/// A copy of pairs.
fn copy_pairs(pairs: &Vec<(u64, u64)>) -> (r: Vec<(u64, u64)>)
    ensures
        r@ == pairs@,
{
    let mut copies: Vec<(u64, u64)> = Vec::new();
    while copies.len() < pairs.len()
        invariant
            copies@ == pairs@.take(copies@.len() as int),
            copies@.len() <= pairs@.len(),
        decreases pairs@.len() - copies@.len(),
    {
        let k: usize = copies.len();
        copies.push(pairs[k]);
        proof {
            assert(copies@ =~= pairs@.take(k + 1));
        }
    }
    proof {
        assert(copies@ =~= pairs@);
    }
    copies
}

/// What candidates share of their ancestors does not depend on the target.
proof fn same_ancestry(p: ProblemView, q: ProblemView)
    requires
        p.wf(),
        p.candidates == q.candidates,
        p.ancestors == q.ancestors,
        p.drags == q.drags,
    ensures
        p.has_private() == q.has_private(),
        p.has_shared() == q.has_shared(),
        forall|a: int| 0 <= a < p.m() ==> #[trigger] p.is_shared(a) == q.is_shared(a),
        forall|c: int| 0 <= c < p.n() ==> #[trigger] shared_row(p, c) == shared_row(q, c),
        forall|c: int| 0 <= c < p.n() ==> #[trigger] p.private_weight(c) == q.private_weight(c),
        forall|c: int| 0 <= c < p.n() ==> #[trigger] p.private_fee(c) == q.private_fee(c),
{
    let all = p.everything();
    assert(all =~= q.everything());
    assert forall|a: int| 0 <= a < p.m() implies #[trigger] p.is_shared(a) == q.is_shared(a) by {
        sums::lemma_over_ext(
            all,
            all,
            |c: int| if p.drags[c][a] { 1int } else { 0 },
            |c: int| if q.drags[c][a] { 1int } else { 0 },
        );
    }
    assert forall|c: int, a: int| 0 <= c < p.n() && 0 <= a < p.m() implies #[trigger] p.is_private(
        c,
        a,
    ) == q.is_private(c, a) by {
        assert(p.is_shared(a) == q.is_shared(a));
    }
    assert forall|c: int| 0 <= c < p.n() implies #[trigger] shared_row(p, c) == shared_row(q, c) by {
        assert(shared_row(p, c) =~= shared_row(q, c));
    }
    assert forall|c: int| 0 <= c < p.n() implies #[trigger] p.private_weight(c) == q.private_weight(c)
        && p.private_fee(c) == q.private_fee(c) by {
        assert(p.privates(c) =~= q.privates(c));
        let own = p.privates(c);
        sums::lemma_over_ext(
            own,
            own,
            |a: int| p.ancestors[a].0 as int,
            |a: int| q.ancestors[a].0 as int,
        );
        sums::lemma_over_ext(
            own,
            own,
            |a: int| p.ancestors[a].1 as int,
            |a: int| q.ancestors[a].1 as int,
        );
    }
    assert forall|c: int| 0 <= c < p.n() implies #[trigger] p.private_fee(c) == q.private_fee(c) by {
        assert(p.private_weight(c) == q.private_weight(c));
    }
    if q.has_shared() {
        let a = choose|a: int| 0 <= a < q.m() && #[trigger] q.is_shared(a);
        assert(p.is_shared(a));
    }
    if p.has_shared() {
        let a = choose|a: int| 0 <= a < p.m() && #[trigger] p.is_shared(a);
        assert(q.is_shared(a));
    }
    if q.has_private() {
        let (c, a) = choose|c: int, a: int|
            0 <= c < q.n() && 0 <= a < q.m() && #[trigger] q.is_private(c, a);
        assert(p.is_private(c, a));
    }
    if p.has_private() {
        let (c, a) = choose|c: int, a: int|
            0 <= c < p.n() && 0 <= a < p.m() && #[trigger] p.is_private(c, a);
        assert(q.is_private(c, a));
    }
}

impl Clone for SelectionProblem {
    fn clone(&self) -> (r: Self)
        ensures
            self.inv() ==> r.inv() && r@ == self@,
    {
        self.copy_for(self.target)
    }
}

impl SelectionProblem {
    /// A problem with no unconfirmed ancestors.
    ///
    /// `candidates` are taken as they are.
    pub fn new_no_ancestors(target: Target, candidates: Vec<Candidate>) -> (r: Self)
        ensures
            r.inv(),
            r@.target == target,
            r@.candidates == candidates@,
            r@.ancestors.len() == 0,
            !r@.has_private(),
            !r@.has_shared(),
    {
        let mut rows: Vec<Bitset> = Vec::new();
        while rows.len() < candidates.len()
            invariant
                rows@.len() <= candidates@.len(),
                forall|c: int| 0 <= c < rows@.len() ==> #[trigger] rows@[c]@.len() == 0,
            decreases candidates@.len() - rows@.len(),
        {
            rows.push(Bitset::with_capacity(0));
        }
        SelectionProblem::from_drags(target, candidates, Vec::new(), &rows)
    }

    /// A copy of this problem, with the same candidates and ancestors, that funds `target` instead.
    ///
    /// Pair it with [`CoinSelector::with_problem`] to measure a selection against another target.
    pub fn with_target(&self, target: Target) -> (r: Self)
        requires
            self.inv(),
        ensures
            r.inv(),
            r@ == (ProblemView { target, ..self@ }),
    {
        self.copy_for(target)
    }

    /// A copy of this problem that funds `target`.
    fn copy_for(&self, target: Target) -> (r: Self)
        ensures
            self.inv() ==> r.inv() && r@ == (ProblemView { target, ..self@ }),
    {
        let r = SelectionProblem {
            target,
            candidates: self.candidates.clone(),
            ancestors: copy_pairs(&self.ancestors),
            drags_in: copy_lists(&self.drags_in),
            shared_drags_in: copy_lists(&self.shared_drags_in),
            private: copy_pairs(&self.private),
            has_private: self.has_private,
            has_shared: self.has_shared,
        };
        proof {
            if self.inv() {
                assert(r.candidates@ =~= self.candidates@);
                assert forall|c: int| 0 <= c < self.candidates@.len() implies #[trigger] r@.drags[c]
                    == self@.drags[c] by {
                    assert(r.drags_in@[c]@ == self.drags_in@[c]@);
                }
                assert(r@.drags =~= self@.drags);
                same_ancestry(self@, r@);
                assert forall|c: int| 0 <= c < r.candidates@.len() implies lists_ancestors(
                    #[trigger] r.drags_in@[c]@,
                    r@.drags[c],
                ) by {
                    assert(r.drags_in@[c]@ == self.drags_in@[c]@);
                }
                assert forall|c: int| 0 <= c < r.candidates@.len() implies lists_ancestors(
                    #[trigger] r.shared_drags_in@[c]@,
                    shared_row(r@, c),
                ) by {
                    assert(r.shared_drags_in@[c]@ == self.shared_drags_in@[c]@);
                    assert(shared_row(self@, c) == shared_row(r@, c));
                }
                assert forall|c: int| 0 <= c < r.candidates@.len() implies #[trigger] r.private@[c].0
                    == r@.private_weight(c) && r.private@[c].1 == r@.private_fee(c) by {
                    assert(self.private@[c] == r.private@[c]);
                    assert(self@.private_weight(c) == r@.private_weight(c));
                    assert(self@.private_fee(c) == r@.private_fee(c));
                }
            }
        }
        r
    }

    /// A selector over this problem.
    pub fn selector(&self) -> (r: CoinSelector<'_>)
        requires
            self.inv(),
            self@.sums_fit(),
        ensures
            r.inv(),
            r@.problem == self@,
            r@.selected == Seq::new(self@.candidates.len(), |c: int| false),
            r@.banned == Seq::new(self@.candidates.len(), |c: int| false),
            r@.order == Seq::new(self@.candidates.len(), |k: int| k as usize),
    {
        CoinSelector::new(self)
    }

    /// What candidate `index` owes for the ancestors it drags in when nothing else is selected.
    pub fn local_bump(&self, index: usize) -> (bump: u64)
        requires
            self.inv(),
            self@.sums_fit(),
            index < self@.n(),
        ensures
            bump == self@.bump(self@.alone(index as int)),
    {
        let ghost none = Seq::new(self@.candidates.len(), |c: int| false);
        let mut totals: AncestorTotals = AncestorTotals::nothing_reachable(self);
        totals.add_selected(self, index, Ghost(none), Ghost(none));
        proof {
            self.inv_shape();
            assert(none.update(index as int, true) =~= self@.alone(index as int));
        }
        let sum: (u64, u64) = totals.selected(
            Ghost(self@),
            Ghost(self@.alone(index as int)),
            Ghost(none),
        );
        ancestor_shortfall(self.target.fee.rate, sum)
    }
}

} // verus!
