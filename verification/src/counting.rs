//! Counting and summing over the first `n` slots of an arena, with the lemmas
//! that relate the totals of two predicates or weightings that agree almost
//! everywhere.
use vstd::prelude::*;

verus! {

/// Number of indices `j` in `0..n` for which `p(j)` holds.
pub open spec fn count_where(p: spec_fn(int) -> bool, n: int) -> nat
    decreases n,
{
    if n <= 0 {
        0
    } else {
        count_where(p, n - 1) + (if p(n - 1) { 1nat } else { 0nat })
    }
}

/// Sum of `w(j)` over the indices `j` in `0..n`.
pub open spec fn sum_of(w: spec_fn(int) -> nat, n: int) -> nat
    decreases n,
{
    if n <= 0 {
        0
    } else {
        sum_of(w, n - 1) + w(n - 1)
    }
}

pub open spec fn indicator(b: bool) -> int {
    if b { 1 } else { 0 }
}

pub proof fn lemma_count_same(p: spec_fn(int) -> bool, q: spec_fn(int) -> bool, n: int)
    requires
        forall|i: int| 0 <= i < n ==> #[trigger] p(i) == q(i),
    ensures
        count_where(p, n) == count_where(q, n),
    decreases n,
{
    if n > 0 {
        lemma_count_same(p, q, n - 1);
    }
}

pub proof fn lemma_count_one_diff(p: spec_fn(int) -> bool, q: spec_fn(int) -> bool, n: int, j: int)
    requires
        0 <= j < n,
        forall|i: int| 0 <= i < n && i != j ==> #[trigger] p(i) == q(i),
    ensures
        count_where(q, n) == count_where(p, n) - indicator(p(j)) + indicator(q(j)),
    decreases n,
{
    if n - 1 == j {
        lemma_count_same(p, q, n - 1);
    } else {
        lemma_count_one_diff(p, q, n - 1, j);
    }
}

pub proof fn lemma_count_bound(p: spec_fn(int) -> bool, n: int)
    requires
        n >= 0,
    ensures
        count_where(p, n) <= n,
    decreases n,
{
    if n > 0 {
        lemma_count_bound(p, n - 1);
    }
}

pub proof fn lemma_count_zero(p: spec_fn(int) -> bool, n: int)
    ensures
        count_where(p, n) == 0 <==> (forall|i: int| 0 <= i < n ==> !#[trigger] p(i)),
    decreases n,
{
    if n > 0 {
        lemma_count_zero(p, n - 1);
        if count_where(p, n) == 0 {
            assert forall|i: int| 0 <= i < n implies !#[trigger] p(i) by {
                if i < n - 1 {
                } else {
                }
            }
        }
    }
}

pub proof fn lemma_sum_same(w: spec_fn(int) -> nat, v: spec_fn(int) -> nat, n: int)
    requires
        forall|i: int| 0 <= i < n ==> #[trigger] w(i) == v(i),
    ensures
        sum_of(w, n) == sum_of(v, n),
    decreases n,
{
    if n > 0 {
        lemma_sum_same(w, v, n - 1);
    }
}

pub proof fn lemma_sum_one_diff(w: spec_fn(int) -> nat, v: spec_fn(int) -> nat, n: int, j: int)
    requires
        0 <= j < n,
        forall|i: int| 0 <= i < n && i != j ==> #[trigger] w(i) == v(i),
    ensures
        sum_of(v, n) == sum_of(w, n) - w(j) + v(j),
    decreases n,
{
    if n - 1 == j {
        lemma_sum_same(w, v, n - 1);
    } else {
        lemma_sum_one_diff(w, v, n - 1, j);
    }
}

pub proof fn lemma_sum_zero(w: spec_fn(int) -> nat, n: int)
    ensures
        sum_of(w, n) == 0 <==> (forall|i: int| 0 <= i < n ==> #[trigger] w(i) == 0),
    decreases n,
{
    if n > 0 {
        lemma_sum_zero(w, n - 1);
        if sum_of(w, n) == 0 {
            assert forall|i: int| 0 <= i < n implies #[trigger] w(i) == 0 by {
                if i < n - 1 {
                } else {
                }
            }
        }
    }
}

pub proof fn lemma_sum_term(w: spec_fn(int) -> nat, n: int, j: int)
    requires
        0 <= j < n,
    ensures
        w(j) <= sum_of(w, n),
    decreases n,
{
    if n - 1 != j {
        lemma_sum_term(w, n - 1, j);
    }
}

pub proof fn lemma_sum_le(w: spec_fn(int) -> nat, v: spec_fn(int) -> nat, n: int)
    requires
        forall|i: int| 0 <= i < n ==> #[trigger] w(i) <= v(i),
    ensures
        sum_of(w, n) <= sum_of(v, n),
    decreases n,
{
    if n > 0 {
        lemma_sum_le(w, v, n - 1);
    }
}

pub proof fn lemma_sum_prefix(w: spec_fn(int) -> nat, k: int, n: int)
    requires
        0 <= k <= n,
    ensures
        sum_of(w, k) <= sum_of(w, n),
    decreases n - k,
{
    if k < n {
        lemma_sum_prefix(w, k, n - 1);
    }
}

pub proof fn lemma_sum_add(a: spec_fn(int) -> nat, b: spec_fn(int) -> nat, c: spec_fn(int) -> nat, n: int)
    requires
        forall|j: int| 0 <= j < n ==> #[trigger] c(j) == a(j) + b(j),
    ensures
        sum_of(c, n) == sum_of(a, n) + sum_of(b, n),
    decreases n,
{
    if n > 0 {
        lemma_sum_add(a, b, c, n - 1);
    }
}

pub proof fn lemma_sum_single(w: spec_fn(int) -> nat, i: int, n: int)
    requires
        0 <= i < n,
        forall|j: int| 0 <= j < n && j != i ==> #[trigger] w(j) == 0,
    ensures
        sum_of(w, n) == w(i),
    decreases n,
{
    if n - 1 == i {
        lemma_sum_zero(w, n - 1);
    } else {
        lemma_sum_single(w, i, n - 1);
    }
}

/// The sums of the rows `j` of a table `f(t, j)`, over `t < m`.
pub open spec fn row_sums(f: spec_fn(int, int) -> nat, m: int) -> spec_fn(int) -> nat {
    |j: int| sum_of(|t: int| f(t, j), m)
}

/// The sums of the columns `t` of a table `f(t, j)`, over `j < n`.
pub open spec fn col_sums(f: spec_fn(int, int) -> nat, n: int) -> spec_fn(int) -> nat {
    |t: int| sum_of(|j: int| f(t, j), n)
}

/// The order of a double sum does not matter.
pub proof fn lemma_sum_swap(f: spec_fn(int, int) -> nat, n: int, m: int)
    requires
        m >= 0,
    ensures
        sum_of(row_sums(f, m), n) == sum_of(col_sums(f, n), m),
    decreases m,
{
    if m > 0 {
        lemma_sum_swap(f, n, m - 1);
        let last = |j: int| f(m - 1, j);
        assert forall|j: int| 0 <= j < n implies #[trigger] row_sums(f, m)(j) == row_sums(f, m - 1)(j) + last(j) by {}
        lemma_sum_add(row_sums(f, m - 1), last, row_sums(f, m), n);
        lemma_sum_same(|j: int| f(m - 1, j), last, n);
    } else {
        lemma_sum_zero(row_sums(f, m), n);
    }
}

} // verus!
