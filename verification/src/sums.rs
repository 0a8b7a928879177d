//! Finite sums of integer functions, the arithmetic all running totals are stated in.
use crate::bitset;
use vstd::prelude::*;

verus! {

/// `f(0) + f(1) + ... + f(n - 1)`, which is zero where `n` is not positive.
pub open spec fn sum(n: int, f: spec_fn(int) -> int) -> int
    decreases n,
{
    if n <= 0 {
        0
    } else {
        sum(n - 1, f) + f(n - 1)
    }
}

/// The sum of `f` over the indices that `s` holds.
pub open spec fn over(s: Seq<bool>, f: spec_fn(int) -> int) -> int {
    sum(s.len() as int, |i: int| if s[i] { f(i) } else { 0 })
}

/// Sums of functions that agree below `n` are equal.
pub proof fn lemma_sum_ext(n: int, f: spec_fn(int) -> int, g: spec_fn(int) -> int)
    requires
        forall|i: int| 0 <= i < n ==> #[trigger] f(i) == g(i),
    ensures
        sum(n, f) == sum(n, g),
    decreases n,
{
    if n > 0 {
        lemma_sum_ext(n - 1, f, g);
        assert(f(n - 1) == g(n - 1));
    }
}

/// A sum is monotone in its terms.
pub proof fn lemma_sum_le(n: int, f: spec_fn(int) -> int, g: spec_fn(int) -> int)
    requires
        forall|i: int| 0 <= i < n ==> #[trigger] f(i) <= g(i),
    ensures
        sum(n, f) <= sum(n, g),
    decreases n,
{
    if n > 0 {
        lemma_sum_le(n - 1, f, g);
        assert(f(n - 1) <= g(n - 1));
    }
}

/// A sum of terms that are not negative is not negative.
pub proof fn lemma_sum_nonneg(n: int, f: spec_fn(int) -> int)
    requires
        forall|i: int| 0 <= i < n ==> #[trigger] f(i) >= 0,
    ensures
        sum(n, f) >= 0,
    decreases n,
{
    if n > 0 {
        lemma_sum_nonneg(n - 1, f);
        assert(f(n - 1) >= 0);
    }
}

/// A sum of zeros is zero.
pub proof fn lemma_sum_zero(n: int, f: spec_fn(int) -> int)
    requires
        forall|i: int| 0 <= i < n ==> #[trigger] f(i) == 0,
    ensures
        sum(n, f) == 0,
    decreases n,
{
    if n > 0 {
        lemma_sum_zero(n - 1, f);
        assert(f(n - 1) == 0);
    }
}

/// Changing one term changes the sum by as much.
pub proof fn lemma_sum_change(n: int, f: spec_fn(int) -> int, g: spec_fn(int) -> int, k: int)
    requires
        0 <= k < n,
        forall|i: int| 0 <= i < n && i != k ==> #[trigger] f(i) == g(i),
    ensures
        sum(n, g) == sum(n, f) - f(k) + g(k),
    decreases n,
{
    if k == n - 1 {
        lemma_sum_ext(n - 1, f, g);
    } else {
        lemma_sum_change(n - 1, f, g, k);
        assert(f(n - 1) == g(n - 1));
    }
}

/// Sums add term by term.
pub proof fn lemma_sum_plus(
    n: int,
    f: spec_fn(int) -> int,
    g: spec_fn(int) -> int,
    h: spec_fn(int) -> int,
)
    requires
        forall|i: int| 0 <= i < n ==> #[trigger] h(i) == f(i) + g(i),
    ensures
        sum(n, h) == sum(n, f) + sum(n, g),
    decreases n,
{
    if n > 0 {
        lemma_sum_plus(n - 1, f, g, h);
        assert(h(n - 1) == f(n - 1) + g(n - 1));
    }
}

/// A term of a sum of terms that are not negative is at most the sum.
pub proof fn lemma_sum_term(n: int, f: spec_fn(int) -> int, k: int)
    requires
        0 <= k < n,
        forall|i: int| 0 <= i < n ==> #[trigger] f(i) >= 0,
    ensures
        f(k) <= sum(n, f),
    decreases n,
{
    lemma_sum_nonneg(n - 1, f);
    if k < n - 1 {
        lemma_sum_term(n - 1, f, k);
        assert(f(n - 1) >= 0);
    }
}

/// A shorter sum of terms that are not negative is at most the longer one.
pub proof fn lemma_sum_prefix(k: int, n: int, f: spec_fn(int) -> int)
    requires
        0 <= k <= n,
        forall|i: int| 0 <= i < n ==> #[trigger] f(i) >= 0,
    ensures
        0 <= sum(k, f) <= sum(n, f),
    decreases n,
{
    if k < n {
        lemma_sum_prefix(k, n - 1, f);
        assert(f(n - 1) >= 0);
    } else {
        lemma_sum_nonneg(n, f);
    }
}

/// A sum that is positive has a positive term.
pub proof fn lemma_sum_witness(n: int, f: spec_fn(int) -> int) -> (k: int)
    requires
        sum(n, f) > 0,
    ensures
        0 <= k < n,
        f(k) > 0,
    decreases n,
{
    if f(n - 1) > 0 {
        n - 1
    } else {
        lemma_sum_witness(n - 1, f)
    }
}

/// Two nested sums may be taken in either order.
pub proof fn lemma_sum_swap(
    n: int,
    m: int,
    rows: spec_fn(int) -> int,
    cols: spec_fn(int) -> int,
    f: spec_fn(int, int) -> int,
)
    requires
        forall|i: int| 0 <= i < n ==> #[trigger] rows(i) == sum(m, |j: int| f(i, j)),
        forall|j: int| 0 <= j < m ==> #[trigger] cols(j) == sum(n, |i: int| f(i, j)),
    ensures
        sum(n, rows) == sum(m, cols),
    decreases n,
{
    if n <= 0 {
        assert forall|j: int| 0 <= j < m implies #[trigger] cols(j) == 0 by {};
        lemma_sum_zero(m, cols);
    } else {
        let fewer = |j: int| sum(n - 1, |i: int| f(i, j));
        lemma_sum_swap(n - 1, m, rows, fewer, f);
        let last = |j: int| f(n - 1, j);
        assert forall|j: int| 0 <= j < m implies #[trigger] cols(j) == fewer(j) + last(j) by {
            let column = |i: int| f(i, j);
            assert(sum(n, column) == sum(n - 1, column) + column(n - 1));
        }
        lemma_sum_plus(m, fewer, last, cols);
        assert(rows(n - 1) == sum(m, |j: int| f(n - 1, j)));
        lemma_sum_ext(m, last, |j: int| f(n - 1, j));
    }
}

/// Sums are linear in their terms.
pub proof fn lemma_sum_linear(
    n: int,
    f: spec_fn(int) -> int,
    g: spec_fn(int) -> int,
    h: spec_fn(int) -> int,
    a: int,
    b: int,
)
    requires
        forall|i: int| 0 <= i < n ==> #[trigger] h(i) == a * f(i) + b * g(i),
    ensures
        sum(n, h) == a * sum(n, f) + b * sum(n, g),
    decreases n,
{
    if n > 0 {
        lemma_sum_linear(n - 1, f, g, h, a, b);
        let (x, y) = (sum(n - 1, f), sum(n - 1, g));
        let (u, v) = (f(n - 1), g(n - 1));
        assert(h(n - 1) == a * u + b * v);
        assert(a * (x + u) + b * (y + v) == a * x + b * y + (a * u + b * v)) by (nonlinear_arith);
    } else {
        assert(a * 0 + b * 0 == 0) by (nonlinear_arith);
    }
}

/// Sums over a set are linear in their terms.
pub proof fn lemma_over_linear(
    s: Seq<bool>,
    f: spec_fn(int) -> int,
    g: spec_fn(int) -> int,
    h: spec_fn(int) -> int,
    a: int,
    b: int,
)
    requires
        forall|i: int| 0 <= i < s.len() ==> #[trigger] h(i) == a * f(i) + b * g(i),
    ensures
        over(s, h) == a * over(s, f) + b * over(s, g),
{
    let (f0, g0, h0) = (
        |i: int| if s[i] { f(i) } else { 0 },
        |i: int| if s[i] { g(i) } else { 0 },
        |i: int| if s[i] { h(i) } else { 0 },
    );
    assert forall|i: int| 0 <= i < s.len() implies #[trigger] h0(i) == a * f0(i) + b * g0(i) by {
        assert(a * 0 + b * 0 == 0) by (nonlinear_arith);
        assert(h(i) == a * f(i) + b * g(i));
    }
    lemma_sum_linear(s.len() as int, f0, g0, h0, a, b);
}

/// Adding an index adds its term.
pub proof fn lemma_over_insert(s: Seq<bool>, f: spec_fn(int) -> int, k: int)
    requires
        0 <= k < s.len(),
        !s[k],
    ensures
        over(s.update(k, true), f) == over(s, f) + f(k),
{
    let t = s.update(k, true);
    lemma_sum_change(
        s.len() as int,
        |i: int| if s[i] { f(i) } else { 0 },
        |i: int| if t[i] { f(i) } else { 0 },
        k,
    );
}

/// Removing an index removes its term.
pub proof fn lemma_over_remove(s: Seq<bool>, f: spec_fn(int) -> int, k: int)
    requires
        0 <= k < s.len(),
        s[k],
    ensures
        over(s.update(k, false), f) == over(s, f) - f(k),
{
    let t = s.update(k, false);
    lemma_sum_change(
        s.len() as int,
        |i: int| if s[i] { f(i) } else { 0 },
        |i: int| if t[i] { f(i) } else { 0 },
        k,
    );
}

/// Sums over sets that agree, of functions that agree on them, are equal.
pub proof fn lemma_over_ext(
    s: Seq<bool>,
    t: Seq<bool>,
    f: spec_fn(int) -> int,
    g: spec_fn(int) -> int,
)
    requires
        s.len() == t.len(),
        forall|i: int| 0 <= i < s.len() ==> #[trigger] s[i] == t[i],
        forall|i: int| 0 <= i < s.len() && s[i] ==> #[trigger] f(i) == g(i),
    ensures
        over(s, f) == over(t, g),
{
    lemma_sum_ext(
        s.len() as int,
        |i: int| if s[i] { f(i) } else { 0 },
        |i: int| if t[i] { g(i) } else { 0 },
    );
}

/// A sum of terms that are not negative over a smaller set is smaller.
pub proof fn lemma_over_le(s: Seq<bool>, t: Seq<bool>, f: spec_fn(int) -> int)
    requires
        bitset::subset(s, t),
        forall|i: int| 0 <= i < s.len() ==> #[trigger] f(i) >= 0,
    ensures
        0 <= over(s, f) <= over(t, f),
{
    lemma_sum_nonneg(s.len() as int, |i: int| if s[i] { f(i) } else { 0 });
    lemma_sum_le(
        s.len() as int,
        |i: int| if s[i] { f(i) } else { 0 },
        |i: int| if t[i] { f(i) } else { 0 },
    );
}

/// A sum over a set is monotone in its terms.
pub proof fn lemma_over_terms_le(s: Seq<bool>, f: spec_fn(int) -> int, g: spec_fn(int) -> int)
    requires
        forall|i: int| 0 <= i < s.len() && s[i] ==> #[trigger] f(i) <= g(i),
    ensures
        over(s, f) <= over(s, g),
{
    lemma_sum_le(
        s.len() as int,
        |i: int| if s[i] { f(i) } else { 0 },
        |i: int| if s[i] { g(i) } else { 0 },
    );
}

/// The sum over nothing is zero.
pub proof fn lemma_over_empty(s: Seq<bool>, f: spec_fn(int) -> int)
    requires
        forall|i: int| 0 <= i < s.len() ==> !#[trigger] s[i],
    ensures
        over(s, f) == 0,
{
    lemma_sum_zero(s.len() as int, |i: int| if s[i] { f(i) } else { 0 });
}

/// The sum over a set that is split in two.
pub proof fn lemma_over_split(
    s: Seq<bool>,
    a: Seq<bool>,
    b: Seq<bool>,
    f: spec_fn(int) -> int,
)
    requires
        a.len() == s.len() == b.len(),
        forall|i: int| 0 <= i < s.len() ==> #[trigger] s[i] == (a[i] || b[i]),
        forall|i: int| 0 <= i < s.len() ==> !(#[trigger] a[i] && b[i]),
    ensures
        over(s, f) == over(a, f) + over(b, f),
{
    lemma_sum_plus(
        s.len() as int,
        |i: int| if a[i] { f(i) } else { 0 },
        |i: int| if b[i] { f(i) } else { 0 },
        |i: int| if s[i] { f(i) } else { 0 },
    );
}

} // verus!
