//! Finite sums, their behaviour under a permutation of the indices, and the
//! weak-duality bound that certifies a minimum-cost matching.

use vstd::prelude::*;
use crate::model::{is_perfect_matching, sum_to};

verus! {

/// A sum is monotone in its terms.
pub proof fn lemma_sum_le(f: spec_fn(int) -> int, g: spec_fn(int) -> int, n: int)
    requires
        forall|i: int| 0 <= i < n ==> #[trigger] f(i) <= g(i),
    ensures
        sum_to(f, n) <= sum_to(g, n),
    decreases n,
{
    if n > 0 {
        lemma_sum_le(f, g, n - 1);
    }
}

/// A sum depends only on its terms below `n`.
pub proof fn lemma_sum_eq(f: spec_fn(int) -> int, g: spec_fn(int) -> int, n: int)
    requires
        forall|i: int| 0 <= i < n ==> #[trigger] f(i) == g(i),
    ensures
        sum_to(f, n) == sum_to(g, n),
    decreases n,
{
    if n > 0 {
        lemma_sum_eq(f, g, n - 1);
    }
}

/// A sum of zeros is zero.
pub proof fn lemma_sum_zero(f: spec_fn(int) -> int, n: int)
    requires
        forall|i: int| 0 <= i < n ==> #[trigger] f(i) == 0,
    ensures
        sum_to(f, n) == 0,
    decreases n,
{
    if n > 0 {
        lemma_sum_zero(f, n - 1);
    }
}

/// The sum of termwise sums is the sum of the sums.
pub proof fn lemma_sum_add(
    h: spec_fn(int) -> int,
    f: spec_fn(int) -> int,
    g: spec_fn(int) -> int,
    n: int,
)
    requires
        forall|i: int| 0 <= i < n ==> #[trigger] h(i) == f(i) + g(i),
    ensures
        sum_to(h, n) == sum_to(f, n) + sum_to(g, n),
    decreases n,
{
    if n > 0 {
        lemma_sum_add(h, f, g, n - 1);
    }
}

/// Changing one term by `d` changes the sum by `d`.
pub proof fn lemma_sum_point(
    f: spec_fn(int) -> int,
    g: spec_fn(int) -> int,
    n: int,
    x: int,
    d: int,
)
    requires
        0 <= x < n,
        g(x) == f(x) + d,
        forall|i: int| 0 <= i < n && i != x ==> #[trigger] g(i) == f(i),
    ensures
        sum_to(g, n) == sum_to(f, n) + d,
    decreases n,
{
    if n - 1 == x {
        lemma_sum_eq(g, f, n - 1);
    } else {
        lemma_sum_point(f, g, n - 1, x, d);
    }
}

/// Terms that vanish from `m` on add nothing to the sum.
pub proof fn lemma_sum_tail_zero(f: spec_fn(int) -> int, m: int, n: int)
    requires
        0 <= m <= n,
        forall|i: int| m <= i < n ==> #[trigger] f(i) == 0,
    ensures
        sum_to(f, n) == sum_to(f, m),
    decreases n,
{
    if n > m {
        lemma_sum_tail_zero(f, m, n - 1);
    }
}

/// The number of indices below `n` that lie below `c`, for `c` between 0 and `n`.
pub proof fn lemma_sum_indicator(f: spec_fn(int) -> int, c: int, n: int)
    requires
        0 <= c <= n,
        forall|i: int| 0 <= i < n ==> #[trigger] f(i) == (if i < c { 1int } else { 0int }),
    ensures
        sum_to(f, n) == c,
    decreases n,
{
    if n > 0 {
        if c == n {
            lemma_sum_indicator(f, c - 1, n - 1);
        } else {
            lemma_sum_indicator(f, c, n - 1);
        }
    }
}

/// A perfect matching reaches every column: each index below `n` occurs in it.
pub proof fn lemma_matching_is_onto(s: Seq<int>, n: int)
    requires
        is_perfect_matching(s, n),
    ensures
        forall|j: int| 0 <= j < n ==> #[trigger] s.contains(j),
{
    let range = vstd::set_lib::set_int_range(0, n);
    vstd::set_lib::lemma_int_range(0, n);
    assert(s.no_duplicates());
    s.unique_seq_to_set();
    vstd::seq_lib::seq_to_set_is_finite(s);
    assert(s.to_set().subset_of(range)) by {
        assert forall|a: int| s.to_set().contains(a) implies range.contains(a) by {
            let i = choose|i: int| 0 <= i < s.len() && s[i] == a;
            assert(0 <= s[i] < n);
        }
    }
    vstd::set_lib::lemma_subset_equality(s.to_set(), range);
    assert forall|j: int| 0 <= j < n implies #[trigger] s.contains(j) by {
        assert(range.contains(j));
        assert(s.to_set().contains(j));
    }
}

/// The terms of `f` at the columns that the first `m` rows of `s` take, zero elsewhere.
pub open spec fn taken_terms(f: spec_fn(int) -> int, s: Seq<int>, m: int) -> spec_fn(int) -> int {
    |j: int|
        if s.take(m).contains(j) {
            f(j)
        } else {
            0
        }
}

proof fn lemma_sum_prefix(
    f: spec_fn(int) -> int,
    h: spec_fn(int) -> int,
    s: Seq<int>,
    n: int,
    m: int,
)
    requires
        is_perfect_matching(s, n),
        0 <= m <= n,
        forall|i: int| 0 <= i < n ==> #[trigger] h(i) == f(s[i]),
    ensures
        sum_to(h, m) == sum_to(taken_terms(f, s, m), n),
    decreases m,
{
    if m == 0 {
        assert forall|j: int| 0 <= j < n implies #[trigger] taken_terms(f, s, 0)(j) == 0 by {
            assert(s.take(0).len() == 0);
        }
        lemma_sum_zero(taken_terms(f, s, 0), n);
    } else {
        lemma_sum_prefix(f, h, s, n, m - 1);
        let x = s[m - 1];
        let before = taken_terms(f, s, m - 1);
        let after = taken_terms(f, s, m);
        let shorter = s.take(m - 1);
        let longer = s.take(m);
        assert(longer[m - 1] == x);
        assert(longer.contains(x));
        assert(!shorter.contains(x)) by {
            if shorter.contains(x) {
                let i = choose|i: int| 0 <= i < shorter.len() && shorter[i] == x;
                assert(s[i] == s[m - 1]);
            }
        }
        assert forall|j: int| 0 <= j < n && j != x implies #[trigger] after(j) == before(j) by {
            if longer.contains(j) {
                let i = choose|i: int| 0 <= i < longer.len() && longer[i] == j;
                assert(shorter[i] == j);
            }
            if shorter.contains(j) {
                let i = choose|i: int| 0 <= i < shorter.len() && shorter[i] == j;
                assert(longer[i] == j);
            }
        }
        assert(0 <= s[m - 1] < n);
        lemma_sum_point(before, after, n, x, f(x));
    }
}

/// Summing the terms of `f` in the order that a perfect matching visits the
/// columns gives the same total as summing them in order.
pub proof fn lemma_sum_permutation(
    f: spec_fn(int) -> int,
    h: spec_fn(int) -> int,
    s: Seq<int>,
    n: int,
)
    requires
        is_perfect_matching(s, n),
        forall|i: int| 0 <= i < n ==> #[trigger] h(i) == f(s[i]),
    ensures
        sum_to(h, n) == sum_to(f, n),
{
    if n > 0 {
        lemma_sum_prefix(f, h, s, n, n);
        lemma_matching_is_onto(s, n);
        assert forall|j: int| 0 <= j < n implies #[trigger] taken_terms(f, s, n)(j) == f(j) by {
            assert(s.take(n) =~= s);
            assert(s.contains(j));
        }
        lemma_sum_eq(taken_terms(f, s, n), f, n);
    }
}

/// Weak duality. Where row potentials `u` and column potentials `v` never
/// exceed the cost of a cell (`u[i] + v[j] <= c(i, j)`) and meet it on every
/// cell of the matching `s`, no perfect matching `t` costs less than `s`.
pub proof fn lemma_dual_certificate(
    c: spec_fn(int, int) -> int,
    n: int,
    s: Seq<int>,
    t: Seq<int>,
    u: Seq<int>,
    v: Seq<int>,
)
    requires
        is_perfect_matching(s, n),
        is_perfect_matching(t, n),
        u.len() == n,
        v.len() == n,
        forall|i: int, j: int| 0 <= i < n && 0 <= j < n ==> u[i] + v[j] <= #[trigger] c(i, j),
        forall|i: int| 0 <= i < n ==> u[i] + v[s[i]] == #[trigger] c(i, s[i]),
    ensures
        sum_to(|i: int| c(i, s[i]), n) <= sum_to(|i: int| c(i, t[i]), n),
{
    let cost_s = |i: int| c(i, s[i]);
    let cost_t = |i: int| c(i, t[i]);
    let row = |i: int| u[i];
    let col = |j: int| v[j];
    let col_s = |i: int| v[s[i]];
    let col_t = |i: int| v[t[i]];
    let dual_t = |i: int| u[i] + v[t[i]];
    lemma_sum_permutation(col, col_s, s, n);
    lemma_sum_permutation(col, col_t, t, n);
    assert forall|i: int| 0 <= i < n implies #[trigger] cost_s(i) == row(i) + col_s(i) by {
        assert(u[i] + v[s[i]] == c(i, s[i]));
    }
    lemma_sum_add(cost_s, row, col_s, n);
    lemma_sum_add(dual_t, row, col_t, n);
    assert forall|i: int| 0 <= i < n implies #[trigger] dual_t(i) <= cost_t(i) by {
        assert(0 <= t[i] < n);
        assert(u[i] + v[t[i]] <= c(i, t[i]));
    }
    lemma_sum_le(dual_t, cost_t, n);
}

} // verus!
