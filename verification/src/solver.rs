//! The square assignment solver: successive shortest augmenting paths with
//! dual potentials over rows and columns.
//!
//! Rows and columns are numbered from 1. Column 0 is a virtual column that
//! holds the row for which a path is being searched, and row 0 means "no row".

use vstd::prelude::*;
use crate::model::{
    is_inverse_of, is_match_map, is_minimum_square_matching, is_perfect_matching, square_cell,
    square_matching_cost,
};
use crate::sums::{lemma_dual_certificate, lemma_matching_is_onto, lemma_sum_eq};

verus! {

/// Marks a column that no scanned row has reached yet.
pub const UNREACHED: i128 = 0x7fff_ffff_ffff_ffff_ffff_ffff_ffff_ffff;

/// Costs are `i64`, so no cost exceeds this in magnitude.
pub open spec fn cost_bound() -> int {
    0x8000_0000_0000_0000
}

/// A bound that potentials never leave and that keeps every sum of a cost and
/// two potentials inside `i128`.
pub open spec fn dual_bound() -> int {
    0x10_0000_0000_0000_0000_0000_0000
}

/// The cost of row `r` and column `j`, both counted from 1.
pub open spec fn cell(cost: Seq<i64>, n: int, r: int, j: int) -> int {
    cost[(r - 1) * n + (j - 1)] as int
}

/// The reduced cost of row `r` and column `j` under the potentials `u` and `v`.
pub open spec fn reduced(cost: Seq<i64>, n: int, u: Seq<i128>, v: Seq<i128>, r: int, j: int) -> int {
    cell(cost, n, r, j) - u[r] - v[j]
}

/// A cell of the square matrix, rows and columns counted from 1, lies inside
/// the flat matrix.
pub proof fn lemma_cell_index(n: int, r: int, j: int)
    requires
        1 <= r <= n,
        1 <= j <= n,
    ensures
        0 <= (r - 1) * n + (j - 1) < n * n,
        (r - 1) * n >= 0,
{
    assert((r - 1) * n >= 0 && (r - 1) * n + n <= n * n) by (nonlinear_arith)
        requires
            1 <= r <= n,
    ;
}

/// The recorded minimum of column `j` after row `i0` has been scanned.
pub open spec fn scanned_min(
    cost: Seq<i64>,
    n: int,
    u: Seq<i128>,
    v: Seq<i128>,
    used: Seq<bool>,
    minv: Seq<i128>,
    i0: int,
    j: int,
) -> int {
    if 1 <= j <= n && !used[j] && reduced(cost, n, u, v, i0, j) < minv[j] {
        reduced(cost, n, u, v, i0, j)
    } else {
        minv[j] as int
    }
}

/// The predecessor of column `j` after row `i0`, held by column `j0`, has been scanned.
pub open spec fn scanned_way(
    cost: Seq<i64>,
    n: int,
    u: Seq<i128>,
    v: Seq<i128>,
    used: Seq<bool>,
    minv: Seq<i128>,
    way: Seq<usize>,
    i0: int,
    j0: int,
    j: int,
) -> int {
    if 1 <= j <= n && !used[j] && reduced(cost, n, u, v, i0, j) < minv[j] {
        j0
    } else {
        way[j] as int
    }
}

/// `j1` is the first unused column among `1..=n` with the least recorded value
/// `delta`; it is 0, and `delta` unreached, where there is none.
pub open spec fn is_first_minimum(
    minv: Seq<i128>,
    used: Seq<bool>,
    n: int,
    delta: int,
    j1: int,
) -> bool {
    &&& 0 <= j1 <= n
    &&& j1 == 0 ==> delta == UNREACHED && forall|j: int|
        1 <= j <= n && !#[trigger] used[j] ==> minv[j] == UNREACHED
    &&& j1 != 0 ==> !used[j1] && delta == minv[j1] && delta < UNREACHED
    &&& j1 != 0 ==> forall|j: int|
        1 <= j <= n && !#[trigger] used[j] ==> delta <= minv[j] && (j < j1 ==> delta < minv[j])
}

/// Scans the row `i0`, which column `j0` holds: lowers the recorded minimum of
/// each unused column to the reduced cost of `i0` there, records `j0` as the
/// predecessor where it did, and returns the least recorded value with the
/// first unused column that has it.
pub fn scan_row(
    cost: &[i64],
    size: usize,
    i0: usize,
    j0: usize,
    u: &Vec<i128>,
    v: &Vec<i128>,
    used: &Vec<bool>,
    minv: &mut Vec<i128>,
    way: &mut Vec<usize>,
) -> (best: (i128, usize))
    requires
        cost@.len() == size * size,
        size * size <= usize::MAX,
        size < usize::MAX,
        1 <= i0 <= size,
        u.len() == size + 1,
        v.len() == size + 1,
        used.len() == size + 1,
        old(minv).len() == size + 1,
        old(way).len() == size + 1,
        -dual_bound() <= u[i0 as int] <= dual_bound(),
        forall|j: int| 1 <= j <= size ==> -dual_bound() <= #[trigger] v[j] <= dual_bound(),
    ensures
        final(minv).len() == size + 1,
        final(way).len() == size + 1,
        forall|j: int|
            0 <= j <= size ==> #[trigger] final(minv)[j] == scanned_min(
                cost@,
                size as int,
                u@,
                v@,
                used@,
                old(minv)@,
                i0 as int,
                j,
            ),
        forall|j: int|
            0 <= j <= size ==> #[trigger] final(way)[j] == scanned_way(
                cost@,
                size as int,
                u@,
                v@,
                used@,
                old(minv)@,
                old(way)@,
                i0 as int,
                j0 as int,
                j,
            ),
        is_first_minimum(final(minv)@, used@, size as int, best.0 as int, best.1 as int),
{
    let ghost minv0: Seq<i128> = minv@;
    let ghost way0: Seq<usize> = way@;
    let mut delta: i128 = UNREACHED;
    let mut j1: usize = 0;
    let mut j: usize = 1;
    while j <= size
        invariant
            1 <= j <= size + 1,
            cost@.len() == size * size,
            size * size <= usize::MAX,
            size < usize::MAX,
            1 <= i0 <= size,
            u.len() == size + 1,
            v.len() == size + 1,
            used.len() == size + 1,
            minv.len() == size + 1,
            way.len() == size + 1,
            minv0.len() == size + 1,
            way0.len() == size + 1,
            -dual_bound() <= u[i0 as int] <= dual_bound(),
            forall|c: int| 1 <= c <= size ==> -dual_bound() <= #[trigger] v[c] <= dual_bound(),
            forall|c: int|
                0 <= c < j ==> #[trigger] minv[c] == scanned_min(
                    cost@,
                    size as int,
                    u@,
                    v@,
                    used@,
                    minv0,
                    i0 as int,
                    c,
                ),
            forall|c: int| j <= c <= size ==> #[trigger] minv[c] == minv0[c],
            forall|c: int|
                0 <= c < j ==> #[trigger] way[c] == scanned_way(
                    cost@,
                    size as int,
                    u@,
                    v@,
                    used@,
                    minv0,
                    way0,
                    i0 as int,
                    j0 as int,
                    c,
                ),
            forall|c: int| j <= c <= size ==> #[trigger] way[c] == way0[c],
            is_first_minimum(minv@, used@, j - 1, delta as int, j1 as int),
        decreases size + 1 - j,
    {
        if !used[j] {
            proof {
                lemma_cell_index(size as int, i0 as int, j as int);
            }
            let at: usize = (i0 - 1) * size + (j - 1);
            let cur: i128 = cost[at] as i128 - u[i0] - v[j];
            assert(cur == reduced(cost@, size as int, u@, v@, i0 as int, j as int));
            if cur < minv[j] {
                minv.set(j, cur);
                way.set(j, j0);
            }
            if minv[j] < delta {
                delta = minv[j];
                j1 = j;
            }
        }
        j = j + 1;
    }
    (delta, j1)
}

/// Row `r` is held by a used column, `owner` naming the column of each row.
pub open spec fn in_tree(used: Seq<bool>, p: Seq<usize>, owner: Seq<int>, r: int) -> bool {
    0 <= owner[r] < used.len() && used[owner[r]] && p[owner[r]] == r
}

/// The potential of row `r` after a shift by `delta`.
pub open spec fn shifted_row(
    u: Seq<i128>,
    used: Seq<bool>,
    p: Seq<usize>,
    owner: Seq<int>,
    delta: int,
    r: int,
) -> int {
    if in_tree(used, p, owner, r) {
        u[r] + delta
    } else {
        u[r] as int
    }
}

/// Shifts the potentials by `delta`: up on the row of each used column, down
/// on each used column, and lowers the recorded minimum of each unused column
/// by as much.
fn shift_potentials(
    size: usize,
    delta: i128,
    used: &Vec<bool>,
    p: &Vec<usize>,
    u: &mut Vec<i128>,
    v: &mut Vec<i128>,
    minv: &mut Vec<i128>,
    Ghost(owner): Ghost<Seq<int>>,
)
    requires
        size < usize::MAX,
        used.len() == size + 1,
        p.len() == size + 1,
        old(u).len() == size + 1,
        old(v).len() == size + 1,
        old(minv).len() == size + 1,
        owner.len() == size + 1,
        forall|j: int| 0 <= j <= size ==> #[trigger] p[j] <= size,
        forall|j: int| 0 <= j <= size && #[trigger] used[j] ==> owner[p[j] as int] == j,
        -dual_bound() <= delta <= dual_bound(),
        forall|r: int| 0 <= r <= size ==> -dual_bound() <= #[trigger] old(u)[r] <= dual_bound(),
        forall|j: int| 0 <= j <= size ==> -dual_bound() <= #[trigger] old(v)[j] <= dual_bound(),
        forall|j: int|
            0 <= j <= size && !used[j] ==> -dual_bound() <= #[trigger] old(minv)[j]
                <= dual_bound(),
    ensures
        final(u).len() == size + 1,
        final(v).len() == size + 1,
        final(minv).len() == size + 1,
        forall|r: int|
            0 <= r <= size ==> #[trigger] final(u)[r] == shifted_row(
                old(u)@,
                used@,
                p@,
                owner,
                delta as int,
                r,
            ),
        forall|j: int|
            0 <= j <= size ==> #[trigger] final(v)[j] == (if used[j] {
                old(v)[j] - delta
            } else {
                old(v)[j] as int
            }),
        forall|j: int|
            0 <= j <= size ==> #[trigger] final(minv)[j] == (if used[j] {
                old(minv)[j] as int
            } else {
                old(minv)[j] - delta
            }),
{
    let ghost u0: Seq<i128> = u@;
    let ghost v0: Seq<i128> = v@;
    let ghost minv0: Seq<i128> = minv@;
    let mut j: usize = 0;
    while j <= size
        invariant
            0 <= j <= size + 1,
            size < usize::MAX,
            used.len() == size + 1,
            p.len() == size + 1,
            u.len() == size + 1,
            v.len() == size + 1,
            minv.len() == size + 1,
            owner.len() == size + 1,
            u0.len() == size + 1,
            v0.len() == size + 1,
            minv0.len() == size + 1,
            forall|c: int| 0 <= c <= size ==> #[trigger] p[c] <= size,
            forall|c: int| 0 <= c <= size && #[trigger] used[c] ==> owner[p[c] as int] == c,
            -dual_bound() <= delta <= dual_bound(),
            forall|r: int| 0 <= r <= size ==> -dual_bound() <= #[trigger] u0[r] <= dual_bound(),
            forall|c: int| 0 <= c <= size ==> -dual_bound() <= #[trigger] v0[c] <= dual_bound(),
            forall|c: int|
                0 <= c <= size && !used[c] ==> -dual_bound() <= #[trigger] minv0[c]
                    <= dual_bound(),
            forall|r: int|
                0 <= r <= size ==> #[trigger] u[r] == (if in_tree(used@, p@, owner, r) && owner[r]
                    < j {
                    u0[r] + delta
                } else {
                    u0[r] as int
                }),
            forall|c: int|
                0 <= c <= size ==> #[trigger] v[c] == (if used[c] && c < j {
                    v0[c] - delta
                } else {
                    v0[c] as int
                }),
            forall|c: int|
                0 <= c <= size ==> #[trigger] minv[c] == (if !used[c] && c < j {
                    minv0[c] - delta
                } else {
                    minv0[c] as int
                }),
        decreases size + 1 - j,
    {
        if used[j] {
            let r: usize = p[j];
            assert(owner[r as int] == j);
            assert(in_tree(used@, p@, owner, r as int));
            let raised: i128 = u[r] + delta;
            u.set(r, raised);
            let lowered: i128 = v[j] - delta;
            v.set(j, lowered);
        } else {
            let lowered: i128 = minv[j] - delta;
            minv.set(j, lowered);
        }
        j = j + 1;
    }
}


/// The working arrays of one solve, each of length `size + 1`.
pub struct Search {
    /// Row potentials.
    pub u: Vec<i128>,
    /// Column potentials.
    pub v: Vec<i128>,
    /// The row that each column is matched to, 0 for none.
    pub p: Vec<usize>,
    /// The predecessor of each column on the path that reached it.
    pub way: Vec<usize>,
    /// The least reduced cost at which the scanned rows reach each column.
    pub minv: Vec<i128>,
    /// The columns that the current search has visited.
    pub used: Vec<bool>,
}

/// What a proof remembers of a search beside its working arrays.
pub struct Trail {
    /// The column that each matched row holds, 0 for the other rows.
    pub col_of: Seq<int>,
    /// The step at which each visited column was visited.
    pub rank: Seq<int>,
    /// The visited columns in the order of their visits.
    pub order: Seq<int>,
    /// The sum of the shifts that followed the first one.
    pub spent: int,
}

/// `2 * cost_bound() * k`: how far `k` rounds can move a potential.
pub open spec fn span(k: int) -> int {
    0x1_0000_0000_0000_0000 * k
}

/// Each working array has an entry for the virtual column and one for each of
/// the `n` others.
pub open spec fn lens_ok(s: Search, n: int) -> bool {
    &&& s.u.len() == n + 1
    &&& s.v.len() == n + 1
    &&& s.p.len() == n + 1
    &&& s.way.len() == n + 1
    &&& s.minv.len() == n + 1
    &&& s.used.len() == n + 1
}

/// The first `k` rows are matched, each to a column of its own, and
/// `col_of` is the inverse of the match map `p`.
pub open spec fn matched_ok(n: int, k: int, p: Seq<usize>, col_of: Seq<int>) -> bool {
    &&& p.len() == n + 1
    &&& col_of.len() == n + 1
    &&& forall|j: int| 0 <= j <= n ==> #[trigger] p[j] <= n
    &&& forall|r: int| 1 <= r <= k ==> 1 <= #[trigger] col_of[r] <= n && p[col_of[r]] == r
    &&& forall|r: int| 0 <= r <= n && !(1 <= r <= k) ==> #[trigger] col_of[r] == 0
    &&& forall|j: int|
        1 <= j <= n && #[trigger] p[j] != 0 ==> p[j] <= k && col_of[p[j] as int] == j
}

/// The potentials are feasible for the first `k` rows, tight on every matched
/// cell, never positive on a column and zero on a free one.
pub open spec fn duals_ok(
    cost: Seq<i64>,
    n: int,
    k: int,
    u: Seq<i128>,
    v: Seq<i128>,
    p: Seq<usize>,
) -> bool {
    &&& forall|r: int, j: int|
        1 <= r <= k && 1 <= j <= n ==> #[trigger] reduced(cost, n, u, v, r, j) >= 0
    &&& forall|j: int|
        1 <= j <= n && #[trigger] p[j] != 0 ==> reduced(cost, n, u, v, p[j] as int, j) == 0
    &&& forall|j: int| 1 <= j <= n ==> #[trigger] v[j] <= 0 && (p[j] == 0 ==> v[j] == 0)
}

/// How far the potentials can be from zero after `k` rounds.
pub open spec fn bounds_ok(n: int, k: int, u: Seq<i128>, v: Seq<i128>) -> bool {
    &&& forall|r: int| 0 <= r <= n ==> -cost_bound() <= #[trigger] u[r] <= cost_bound() + span(k)
    &&& forall|r: int| 0 <= r <= n && !(1 <= r <= k) ==> #[trigger] u[r] == 0
    &&& forall|j: int| 1 <= j <= n ==> -span(k) <= #[trigger] v[j]
    &&& -2 * span(k) <= v[0] <= span(k)
}

/// What holds between two rounds, `k` rows being matched.
pub open spec fn round_inv(cost: Seq<i64>, n: int, k: int, s: Search, col_of: Seq<int>) -> bool {
    &&& s.u.len() == n + 1
    &&& s.v.len() == n + 1
    &&& s.way.len() == n + 1
    &&& 0 <= k <= n <= 0xffff_ffff
    &&& cost.len() == n * n
    &&& matched_ok(n, k, s.p@, col_of)
    &&& duals_ok(cost, n, k, s.u@, s.v@, s.p@)
    &&& bounds_ok(n, k, s.u@, s.v@)
}

/// Column `j` hangs on the tree by a tight cell: its predecessor was visited
/// before it, and the row that the predecessor holds has reduced cost 0 at `j`.
pub open spec fn linked(cost: Seq<i64>, n: int, s: Search, rank: Seq<int>, j: int) -> bool {
    &&& s.way[j] <= n
    &&& s.used[s.way[j] as int]
    &&& rank[s.way[j] as int] < rank[j]
    &&& reduced(cost, n, s.u@, s.v@, s.p[s.way[j] as int] as int, j) == 0
}

/// The visited columns are matched, ranked in the order of their visits, and
/// each of them but column 0 is linked; so is column `j0`.
pub open spec fn tree_ok(cost: Seq<i64>, n: int, s: Search, g: Trail, j0: int) -> bool {
    &&& g.rank.len() == n + 1
    &&& forall|t: int|
        0 <= t < g.order.len() ==> 0 <= #[trigger] g.order[t] <= n && s.used[g.order[t]]
            && g.rank[g.order[t]] == t
    &&& forall|j: int|
        0 <= j <= n && #[trigger] s.used[j] ==> s.p[j] != 0 && 0 <= g.rank[j] < g.order.len()
    &&& forall|j: int|
        1 <= j <= n && (s.used[j] || j == j0) ==> #[trigger] linked(cost, n, s, g.rank, j)
}

/// The reduced cost at column `j` of the row that column `c` holds.
pub open spec fn held_reduced(cost: Seq<i64>, n: int, s: Search, c: int, j: int) -> int {
    reduced(cost, n, s.u@, s.v@, s.p[c] as int, j)
}

/// The recorded minimum of the unvisited column `j` is the least reduced cost
/// among the rows of the visited columns, and `way[j]` holds a row that has it.
pub open spec fn reach_ok(cost: Seq<i64>, n: int, s: Search, spent: int, j: int) -> bool {
    &&& 0 <= s.minv[j]
    &&& s.way[j] <= n
    &&& s.used[s.way[j] as int]
    &&& s.minv[j] == held_reduced(cost, n, s, s.way[j] as int, j)
    &&& s.p[j] == 0 ==> s.minv[j] <= 2 * cost_bound() - spent
}

/// Every unvisited column has its recorded minimum, and none of the rows that
/// the visited columns hold reaches it at a lower reduced cost.
pub open spec fn reaches_ok(cost: Seq<i64>, n: int, s: Search, spent: int) -> bool {
    &&& forall|j: int| 1 <= j <= n && !s.used[j] ==> #[trigger] reach_ok(cost, n, s, spent, j)
    &&& forall|j: int, c: int|
        1 <= j <= n && 0 <= c <= n && !s.used[j] && s.used[c] ==> s.minv[j] <= #[trigger] held_reduced(
            cost,
            n,
            s,
            c,
            j,
        )
}

/// How far the potentials can be from zero during the search for row `k + 1`,
/// `spent` being the sum of the shifts after the first and `first` saying that
/// no shift has been made yet.
pub open spec fn search_bounds(n: int, k: int, spent: int, first: bool, u: Seq<i128>, v: Seq<i128>) -> bool {
    &&& 0 <= spent <= 2 * cost_bound()
    &&& forall|r: int|
        0 <= r <= n && r != k + 1 ==> -cost_bound() <= #[trigger] u[r] <= cost_bound() + span(k)
            + spent
    &&& forall|r: int| 0 <= r <= n && !(1 <= r <= k + 1) ==> #[trigger] u[r] == 0
    &&& if first {
        u[k + 1] == 0 && -2 * span(k) <= v[0] <= span(k)
    } else {
        &&& -cost_bound() <= u[k + 1] <= cost_bound() + spent
        &&& -(2 * span(k) + cost_bound() + spent) <= v[0] <= span(k) + cost_bound()
    }
    &&& forall|j: int| 1 <= j <= n ==> -(span(k) + spent) <= #[trigger] v[j]
}

/// What holds at the head of each step of the search for row `k + 1`, the
/// search standing at column `j0`.
pub open spec fn search_inv(cost: Seq<i64>, n: int, k: int, s: Search, j0: int, g: Trail) -> bool {
    &&& lens_ok(s, n)
    &&& 0 <= k < n <= 0xffff_ffff
    &&& cost.len() == n * n
    &&& matched_ok(n, k, s.p@, g.col_of)
    &&& s.p[0] == k + 1
    &&& 0 <= j0 <= n
    &&& !s.used[j0]
    &&& s.p[j0] != 0
    &&& s.used[0] == (j0 != 0)
    &&& g.rank[j0] == g.order.len()
    &&& tree_ok(cost, n, s, g, j0)
    &&& duals_ok(cost, n, k, s.u@, s.v@, s.p@)
    &&& j0 != 0 ==> forall|j: int|
        1 <= j <= n ==> #[trigger] reduced(cost, n, s.u@, s.v@, k + 1, j) >= 0
    &&& j0 == 0 ==> g.spent == 0 && forall|j: int|
        0 <= j <= n ==> #[trigger] s.minv[j] == UNREACHED && !s.used[j]
    &&& j0 != 0 ==> reaches_ok(cost, n, s, g.spent)
    &&& search_bounds(n, k, g.spent, j0 == 0, s.u@, s.v@)
}

/// What holds when the search for row `k + 1` has reached the free column `j1`.
pub open spec fn path_found(cost: Seq<i64>, n: int, k: int, s: Search, j1: int, g: Trail) -> bool {
    &&& lens_ok(s, n)
    &&& 0 <= k < n <= 0xffff_ffff
    &&& cost.len() == n * n
    &&& matched_ok(n, k, s.p@, g.col_of)
    &&& s.p[0] == k + 1
    &&& 1 <= j1 <= n
    &&& !s.used[j1]
    &&& s.p[j1] == 0
    &&& s.used[0]
    &&& tree_ok(cost, n, s, g, j1)
    &&& duals_ok(cost, n, k + 1, s.u@, s.v@, s.p@)
    &&& bounds_ok(n, k + 1, s.u@, s.v@)
}


/// With fewer matched rows than columns, some column is free.
pub proof fn lemma_free_column(n: int, k: int, p: Seq<usize>, col_of: Seq<int>)
    requires
        matched_ok(n, k, p, col_of),
        0 <= k < n,
    ensures
        exists|f: int| 1 <= f <= n && #[trigger] p[f] == 0,
{
    if forall|f: int| 1 <= f <= n ==> #[trigger] p[f] != 0 {
        let img = Seq::new(k as nat, |t: int| col_of[t + 1]);
        assert(img.no_duplicates()) by {
            assert forall|x: int, y: int|
                0 <= x < img.len() && 0 <= y < img.len() && x != y implies img[x] != img[y] by {
                assert(p[col_of[x + 1]] == x + 1);
                assert(p[col_of[y + 1]] == y + 1);
            }
        }
        img.unique_seq_to_set();
        vstd::seq_lib::seq_to_set_is_finite(img);
        let range = vstd::set_lib::set_int_range(1, n + 1);
        vstd::set_lib::lemma_int_range(1, n + 1);
        assert(range.subset_of(img.to_set())) by {
            assert forall|f: int| range.contains(f) implies img.to_set().contains(f) by {
                assert(p[f] != 0);
                let r = p[f] as int;
                assert(col_of[r] == f);
                assert(img[r - 1] == f);
                assert(img.contains(f));
            }
        }
        vstd::set_lib::lemma_len_subset(range, img.to_set());
        assert(false);
    }
}

/// Columns that are ranked in the order of their visits are distinct, so no
/// more than `n + 1` of them were visited.
pub proof fn lemma_order_bounded(order: Seq<int>, rank: Seq<int>, n: int)
    requires
        0 <= n,
        forall|t: int|
            0 <= t < order.len() ==> 0 <= #[trigger] order[t] <= n && rank[order[t]] == t,
    ensures
        order.len() <= n + 1,
{
    assert(order.no_duplicates());
    order.unique_seq_to_set();
    vstd::seq_lib::seq_to_set_is_finite(order);
    let range = vstd::set_lib::set_int_range(0, n + 1);
    vstd::set_lib::lemma_int_range(0, n + 1);
    assert(order.to_set().subset_of(range)) by {
        assert forall|c: int| order.to_set().contains(c) implies range.contains(c) by {
            let t = choose|t: int| 0 <= t < order.len() && order[t] == c;
            assert(0 <= order[t] <= n);
        }
    }
    vstd::set_lib::lemma_len_subset(order.to_set(), range);
}

/// The trail after a step from column `j0` to column `j1` with shift `delta`.
pub open spec fn next_trail(g: Trail, j0: int, j1: int, delta: int) -> Trail {
    Trail {
        col_of: g.col_of,
        rank: g.rank.update(j1, g.order.len() as int + 1),
        order: g.order.push(j0),
        spent: if j0 == 0 {
            0
        } else {
            g.spent + delta
        },
    }
}

/// What the scan of a step leaves at the unvisited column `j`.
pub open spec fn reach_mid(
    cost: Seq<i64>,
    n: int,
    k: int,
    a: Search,
    mid: Seq<i128>,
    way1: Seq<usize>,
    g: Trail,
    j0: int,
    delta: int,
    j: int,
) -> bool {
    &&& delta <= mid[j] <= 2 * cost_bound() + span(k) + g.spent
    &&& way1[j] <= n
    &&& a.used@.update(j0, true)[way1[j] as int]
    &&& mid[j] == held_reduced(cost, n, a, way1[j] as int, j)
    &&& a.p[j] == 0 ==> mid[j] - delta <= 2 * cost_bound() - next_trail(g, j0, 0, delta).spent
}

/// What the scan of a step has found, `a` being the state before the step.
pub open spec fn scan_ok(
    cost: Seq<i64>,
    n: int,
    k: int,
    a: Search,
    mid: Seq<i128>,
    way1: Seq<usize>,
    g: Trail,
    j0: int,
    j1: int,
    delta: int,
) -> bool {
    let used1 = a.used@.update(j0, true);
    &&& 1 <= j1 <= n
    &&& !used1[j1]
    &&& delta == mid[j1]
    &&& if j0 == 0 {
        -cost_bound() <= delta <= cost_bound()
    } else {
        0 <= delta <= 2 * cost_bound() - g.spent
    }
    &&& forall|j: int|
        1 <= j <= n && !used1[j] ==> #[trigger] reach_mid(cost, n, k, a, mid, way1, g, j0, delta, j)
    &&& forall|j: int, c: int|
        1 <= j <= n && 0 <= c <= n && !used1[j] && used1[c] ==> mid[j] <= #[trigger] held_reduced(
            cost,
            n,
            a,
            c,
            j,
        )
}

/// The scan of a step, `a` being the state before the step.
pub open spec fn scanned(
    cost: Seq<i64>,
    n: int,
    a: Search,
    mid: Seq<i128>,
    way1: Seq<usize>,
    j0: int,
    j1: int,
    delta: int,
) -> bool {
    let used1 = a.used@.update(j0, true);
    let i0 = a.p[j0] as int;
    &&& mid.len() == n + 1
    &&& way1.len() == n + 1
    &&& forall|j: int|
        0 <= j <= n ==> #[trigger] mid[j] == scanned_min(cost, n, a.u@, a.v@, used1, a.minv@, i0, j)
    &&& forall|j: int|
        0 <= j <= n ==> #[trigger] way1[j] == scanned_way(
            cost,
            n,
            a.u@,
            a.v@,
            used1,
            a.minv@,
            a.way@,
            i0,
            j0,
            j,
        )
    &&& is_first_minimum(mid, used1, n, delta, j1)
}

/// A cost is an `i64`, so its magnitude is within the cost bound.
pub proof fn lemma_cell_bound(cost: Seq<i64>, n: int, r: int, j: int)
    requires
        1 <= r <= n,
        1 <= j <= n,
        cost.len() == n * n,
    ensures
        -cost_bound() <= cell(cost, n, r, j) < cost_bound(),
{
    lemma_cell_index(n, r, j);
}

/// The scan of a step finds an unvisited column, and what it records for the
/// unvisited columns is what the search needs of them.
pub proof fn lemma_scan(
    cost: Seq<i64>,
    n: int,
    k: int,
    a: Search,
    mid: Seq<i128>,
    way1: Seq<usize>,
    g: Trail,
    j0: int,
    j1: int,
    delta: int,
)
    requires
        search_inv(cost, n, k, a, j0, g),
        scanned(cost, n, a, mid, way1, j0, j1, delta),
    ensures
        scan_ok(cost, n, k, a, mid, way1, g, j0, j1, delta),
{
    let used1 = a.used@.update(j0, true);
    let i0 = a.p[j0] as int;
    assert(1 <= i0 <= k + 1);
    assert(j0 != 0 ==> i0 <= k);
    assert forall|j: int| 1 <= j <= n && !used1[j] implies {
        &&& mid[j] <= 2 * cost_bound() + span(k) + g.spent
        &&& mid[j] < UNREACHED
        &&& j0 != 0 ==> mid[j] >= 0
        &&& j0 == 0 ==> mid[j] >= -cost_bound()
        &&& way1[j] <= n
        &&& used1[way1[j] as int]
        &&& mid[j] == held_reduced(cost, n, a, way1[j] as int, j)
        &&& mid[j] <= held_reduced(cost, n, a, j0, j)
        &&& a.p[j] == 0 && j0 == 0 ==> mid[j] <= cost_bound()
        &&& a.p[j] == 0 && j0 != 0 ==> mid[j] <= 2 * cost_bound() - g.spent
    } by {
        lemma_cell_bound(cost, n, i0, j);
        let red = reduced(cost, n, a.u@, a.v@, i0, j);
        assert(mid[j] == scanned_min(cost, n, a.u@, a.v@, used1, a.minv@, i0, j));
        assert(way1[j] == scanned_way(cost, n, a.u@, a.v@, used1, a.minv@, a.way@, i0, j0, j));
        assert(a.v[j] <= 0);
        assert(-(span(k) + g.spent) <= a.v[j]);
        assert(held_reduced(cost, n, a, j0, j) == red);
        if j0 == 0 {
            assert(a.minv[j] == UNREACHED);
            assert(a.u[k + 1] == 0);
        } else {
            assert(!a.used[j]);
            assert(reach_ok(cost, n, a, g.spent, j));
            assert(red >= 0);
            let w = a.way[j] as int;
            assert(a.used[w]);
            assert(a.p[w] != 0);
            lemma_cell_bound(cost, n, a.p[w] as int, j);
            assert(-cost_bound() <= a.u[a.p[w] as int]);
        }
    }
    lemma_free_column(n, k, a.p@, g.col_of);
    let f = choose|f: int| 1 <= f <= n && #[trigger] a.p[f] == 0;
    assert(!used1[f]) by {
        if a.used[f] {
            assert(a.p[f] != 0);
        }
    }
    assert(mid[f] < UNREACHED);
    assert(j1 != 0);
    assert(delta <= mid[f]);
    assert forall|j: int| 1 <= j <= n && !used1[j] implies #[trigger] reach_mid(
        cost,
        n,
        k,
        a,
        mid,
        way1,
        g,
        j0,
        delta,
        j,
    ) by {
        assert(delta <= mid[j]);
    }
    assert forall|j: int, c: int|
        1 <= j <= n && 0 <= c <= n && !used1[j] && used1[c] implies mid[j] <= #[trigger] held_reduced(
        cost,
        n,
        a,
        c,
        j,
    ) by {
        if c != j0 {
            assert(a.used[c]);
            if j0 == 0 {
                assert(a.minv[c] == UNREACHED);
            }
            assert(!a.used[j]);
            assert(a.minv[j] <= held_reduced(cost, n, a, c, j));
            assert(mid[j] == scanned_min(cost, n, a.u@, a.v@, used1, a.minv@, i0, j));
        }
    }
}


/// The shift of a step, `a` being the state before the step, `mid` what the
/// scan recorded and `b` the state after the step.
pub open spec fn shifted(
    n: int,
    a: Search,
    b: Search,
    mid: Seq<i128>,
    col_of: Seq<int>,
    j0: int,
    delta: int,
) -> bool {
    let used1 = a.used@.update(j0, true);
    &&& lens_ok(b, n)
    &&& b.p@ == a.p@
    &&& b.used@ == used1
    &&& forall|r: int|
        0 <= r <= n ==> #[trigger] b.u[r] == shifted_row(a.u@, used1, a.p@, col_of, delta, r)
    &&& forall|j: int|
        0 <= j <= n ==> #[trigger] b.v[j] == (if used1[j] {
            a.v[j] - delta
        } else {
            a.v[j] as int
        })
    &&& forall|j: int|
        0 <= j <= n ==> #[trigger] b.minv[j] == (if used1[j] {
            mid[j] as int
        } else {
            mid[j] - delta
        })
    &&& forall|j: int| 0 <= j <= n && used1[j] ==> #[trigger] b.way[j] == a.way[j]
}

/// One step of the search took the state `a` at column `j0` to the state `b`
/// at column `j1`.
pub open spec fn step_pre(
    cost: Seq<i64>,
    n: int,
    k: int,
    a: Search,
    b: Search,
    mid: Seq<i128>,
    g: Trail,
    j0: int,
    j1: int,
    delta: int,
) -> bool {
    &&& search_inv(cost, n, k, a, j0, g)
    &&& scan_ok(cost, n, k, a, mid, b.way@, g, j0, j1, delta)
    &&& shifted(n, a, b, mid, g.col_of, j0, delta)
}

/// What a shift by `delta` adds to the potential of row `r`: `delta` where the
/// column that holds the row is visited.
pub open spec fn row_shift(used1: Seq<bool>, col_of: Seq<int>, delta: int, r: int) -> int {
    if used1[col_of[r]] {
        delta
    } else {
        0
    }
}

/// What a shift by `delta` takes from the potential of column `j`: `delta`
/// where the column is visited.
pub open spec fn col_shift(used1: Seq<bool>, delta: int, j: int) -> int {
    if used1[j] {
        delta
    } else {
        0
    }
}

/// A step lowers the reduced cost of a cell by the shift where its row is in
/// the tree, and raises it by the shift where its column is.
pub proof fn lemma_shift_law(
    cost: Seq<i64>,
    n: int,
    k: int,
    a: Search,
    b: Search,
    mid: Seq<i128>,
    g: Trail,
    j0: int,
    j1: int,
    delta: int,
)
    requires
        step_pre(cost, n, k, a, b, mid, g, j0, j1, delta),
    ensures
        a.used@.update(j0, true)[0],
        j0 != 0 ==> delta >= 0,
        forall|j: int| 1 <= j <= n && a.used@.update(j0, true)[j] ==> j0 != 0,
        forall|r: int| 1 <= r <= k + 1 ==> 0 <= #[trigger] g.col_of[r] <= n && a.p[g.col_of[r]] == r,
        forall|c: int|
            0 <= c <= n && #[trigger] a.used@.update(j0, true)[c] ==> 1 <= a.p[c] <= k + 1
                && g.col_of[a.p[c] as int] == c,
        forall|r: int, j: int|
            1 <= r <= k + 1 && 1 <= j <= n ==> #[trigger] reduced(cost, n, b.u@, b.v@, r, j)
                == reduced(cost, n, a.u@, a.v@, r, j) - row_shift(
                a.used@.update(j0, true),
                g.col_of,
                delta,
                r,
            ) + col_shift(a.used@.update(j0, true), delta, j),
{
    let used1 = a.used@.update(j0, true);
    assert forall|j: int| 1 <= j <= n && used1[j] implies j0 != 0 by {
        if j0 == 0 {
            assert(a.minv[j] == UNREACHED);
        }
    }
    assert forall|r: int| 1 <= r <= k + 1 implies 0 <= #[trigger] g.col_of[r] <= n
        && a.p[g.col_of[r]] == r by {
        if r == k + 1 {
            assert(g.col_of[r] == 0);
        }
    }
    assert forall|c: int| 0 <= c <= n && #[trigger] used1[c] implies 1 <= a.p[c] <= k + 1
        && g.col_of[a.p[c] as int] == c by {
        if c == 0 {
            assert(g.col_of[k + 1] == 0);
        } else {
            if c != j0 {
                assert(a.used[c]);
            }
            assert(a.p[c] != 0);
        }
    }
    assert forall|r: int, j: int| 1 <= r <= k + 1 && 1 <= j <= n implies #[trigger] reduced(
        cost,
        n,
        b.u@,
        b.v@,
        r,
        j,
    ) == reduced(cost, n, a.u@, a.v@, r, j) - row_shift(used1, g.col_of, delta, r) + col_shift(
        used1,
        delta,
        j,
    ) by {
        assert(b.u[r] == shifted_row(a.u@, used1, a.p@, g.col_of, delta, r));
        assert(a.p[g.col_of[r]] == r);
        assert(in_tree(used1, a.p@, g.col_of, r) == used1[g.col_of[r]]);
    }
}

/// A step keeps the potentials feasible and tight, and makes them feasible
/// for the row that the search is for.
pub proof fn lemma_step_duals(
    cost: Seq<i64>,
    n: int,
    k: int,
    a: Search,
    b: Search,
    mid: Seq<i128>,
    g: Trail,
    j0: int,
    j1: int,
    delta: int,
)
    requires
        step_pre(cost, n, k, a, b, mid, g, j0, j1, delta),
    ensures
        duals_ok(cost, n, k + 1, b.u@, b.v@, b.p@),
{
    let used1 = a.used@.update(j0, true);
    lemma_shift_law(cost, n, k, a, b, mid, g, j0, j1, delta);
    assert forall|r: int, j: int| 1 <= r <= k + 1 && 1 <= j <= n implies #[trigger] reduced(
        cost,
        n,
        b.u@,
        b.v@,
        r,
        j,
    ) >= 0 by {
        let c = g.col_of[r];
        assert(a.p[c] == r);
        if used1[c] {
            if !used1[j] {
                assert(mid[j] <= held_reduced(cost, n, a, c, j));
                assert(reach_mid(cost, n, k, a, mid, b.way@, g, j0, delta, j));
            } else {
                assert(j0 != 0);
                assert(reduced(cost, n, a.u@, a.v@, r, j) >= 0);
            }
        } else {
            assert(r <= k);
            assert(reduced(cost, n, a.u@, a.v@, r, j) >= 0);
        }
    }
    assert forall|j: int| 1 <= j <= n && #[trigger] b.p[j] != 0 implies reduced(
        cost,
        n,
        b.u@,
        b.v@,
        b.p[j] as int,
        j,
    ) == 0 by {
        assert(a.p[j] != 0);
        let r = a.p[j] as int;
        assert(g.col_of[r] == j);
        assert(reduced(cost, n, a.u@, a.v@, r, j) == 0);
    }
    assert forall|j: int| 1 <= j <= n implies #[trigger] b.v[j] <= 0 && (b.p[j] == 0 ==> b.v[j]
        == 0) by {
        assert(a.v[j] <= 0);
        if used1[j] {
            assert(a.p[j] != 0);
        }
    }
}

/// A step keeps the tree: the visited columns stay linked, and the column
/// that the step moves to is linked to the tree.
pub proof fn lemma_step_tree(
    cost: Seq<i64>,
    n: int,
    k: int,
    a: Search,
    b: Search,
    mid: Seq<i128>,
    g: Trail,
    j0: int,
    j1: int,
    delta: int,
)
    requires
        step_pre(cost, n, k, a, b, mid, g, j0, j1, delta),
    ensures
        tree_ok(cost, n, b, next_trail(g, j0, j1, delta), j1),
{
    let used1 = a.used@.update(j0, true);
    let g1 = next_trail(g, j0, j1, delta);
    lemma_shift_law(cost, n, k, a, b, mid, g, j0, j1, delta);
    assert forall|t: int| 0 <= t < g1.order.len() implies 0 <= #[trigger] g1.order[t] <= n
        && b.used[g1.order[t]] && g1.rank[g1.order[t]] == t by {
        if t < g.order.len() {
            assert(g1.order[t] == g.order[t]);
            assert(a.used[g.order[t]]);
        }
    }
    assert forall|j: int| 0 <= j <= n && #[trigger] b.used[j] implies b.p[j] != 0 && 0
        <= g1.rank[j] < g1.order.len() by {
        if j != j0 {
            assert(a.used[j]);
        }
    }
    assert forall|j: int| 1 <= j <= n && (b.used[j] || j == j1) implies #[trigger] linked(
        cost,
        n,
        b,
        g1.rank,
        j,
    ) by {
        if b.used[j] {
            assert(linked(cost, n, a, g.rank, j));
            let w = a.way[j] as int;
            assert(b.way[j] == a.way[j]);
            assert(a.used[w]);
            assert(used1[w]);
            assert(g.col_of[a.p[w] as int] == w);
            assert(reduced(cost, n, b.u@, b.v@, a.p[w] as int, j) == reduced(
                cost,
                n,
                a.u@,
                a.v@,
                a.p[w] as int,
                j,
            ));
        } else {
            assert(reach_mid(cost, n, k, a, mid, b.way@, g, j0, delta, j1));
            let w = b.way[j1] as int;
            assert(used1[w]);
            assert(g.col_of[a.p[w] as int] == w);
            assert(held_reduced(cost, n, a, w, j1) == reduced(
                cost,
                n,
                a.u@,
                a.v@,
                a.p[w] as int,
                j1,
            ));
            if w != j0 {
                assert(a.used[w]);
            }
        }
    }
}

/// A step keeps what is recorded for the unvisited columns.
pub proof fn lemma_step_reaches(
    cost: Seq<i64>,
    n: int,
    k: int,
    a: Search,
    b: Search,
    mid: Seq<i128>,
    g: Trail,
    j0: int,
    j1: int,
    delta: int,
)
    requires
        step_pre(cost, n, k, a, b, mid, g, j0, j1, delta),
    ensures
        reaches_ok(cost, n, b, next_trail(g, j0, j1, delta).spent),
{
    let used1 = a.used@.update(j0, true);
    let g1 = next_trail(g, j0, j1, delta);
    lemma_shift_law(cost, n, k, a, b, mid, g, j0, j1, delta);
    assert forall|j: int, c: int|
        1 <= j <= n && 0 <= c <= n && !b.used[j] && b.used[c] implies b.minv[j]
        <= #[trigger] held_reduced(cost, n, b, c, j) by {
        assert(mid[j] <= held_reduced(cost, n, a, c, j));
        assert(g.col_of[a.p[c] as int] == c);
        assert(held_reduced(cost, n, b, c, j) == reduced(cost, n, b.u@, b.v@, a.p[c] as int, j));
        assert(held_reduced(cost, n, a, c, j) == reduced(cost, n, a.u@, a.v@, a.p[c] as int, j));
    }
    assert forall|j: int| 1 <= j <= n && !b.used[j] implies #[trigger] reach_ok(
        cost,
        n,
        b,
        g1.spent,
        j,
    ) by {
        assert(reach_mid(cost, n, k, a, mid, b.way@, g, j0, delta, j));
        let w = b.way[j] as int;
        assert(used1[w]);
        assert(g.col_of[a.p[w] as int] == w);
        assert(held_reduced(cost, n, b, w, j) == reduced(cost, n, b.u@, b.v@, a.p[w] as int, j));
        assert(held_reduced(cost, n, a, w, j) == reduced(cost, n, a.u@, a.v@, a.p[w] as int, j));
    }
}

/// A step keeps the potentials within their bounds.
pub proof fn lemma_step_bounds(
    cost: Seq<i64>,
    n: int,
    k: int,
    a: Search,
    b: Search,
    mid: Seq<i128>,
    g: Trail,
    j0: int,
    j1: int,
    delta: int,
)
    requires
        step_pre(cost, n, k, a, b, mid, g, j0, j1, delta),
    ensures
        search_bounds(n, k, next_trail(g, j0, j1, delta).spent, false, b.u@, b.v@),
        bounds_ok(n, k + 1, b.u@, b.v@),
{
    let used1 = a.used@.update(j0, true);
    let g1 = next_trail(g, j0, j1, delta);
    lemma_shift_law(cost, n, k, a, b, mid, g, j0, j1, delta);
    lemma_free_column(n, k, a.p@, g.col_of);
    let f = choose|f: int| 1 <= f <= n && #[trigger] a.p[f] == 0;
    assert(!used1[f]) by {
        if a.used[f] {
            assert(a.p[f] != 0);
        }
    }
    assert(reach_mid(cost, n, k, a, mid, b.way@, g, j0, delta, f));
    assert(0 <= g1.spent <= 2 * cost_bound());
    assert forall|r: int| 0 <= r <= n implies {
        &&& r != k + 1 ==> -cost_bound() <= #[trigger] b.u[r] <= cost_bound() + span(k) + g1.spent
        &&& !(1 <= r <= k + 1) ==> b.u[r] == 0
        &&& r == k + 1 ==> -cost_bound() <= b.u[r] <= cost_bound() + g1.spent
    } by {
        assert(b.u[r] == shifted_row(a.u@, used1, a.p@, g.col_of, delta, r));
        if in_tree(used1, a.p@, g.col_of, r) {
            let c = g.col_of[r];
            assert(used1[c]);
            assert(1 <= a.p[c] <= k + 1);
            if r != k + 1 {
                assert(c != 0);
                assert(j0 != 0);
            }
        }
        if r != k + 1 {
            assert(-cost_bound() <= a.u[r] <= cost_bound() + span(k) + g.spent);
        }
        if !(1 <= r <= k + 1) {
            assert(a.u[r] == 0);
        }
        if r == k + 1 {
            assert(g.col_of[r] == 0);
            assert(a.p[0] == r);
        }
    }
    assert forall|j: int| 1 <= j <= n implies -(span(k) + g1.spent) <= #[trigger] b.v[j] by {
        assert(-(span(k) + g.spent) <= a.v[j]);
        if used1[j] {
            assert(j0 != 0);
        }
    }
    assert(b.v[0] == a.v[0] - delta);
}

/// One step of the search keeps what holds at the head of each step, or ends
/// the search at a free column.
pub proof fn lemma_step(
    cost: Seq<i64>,
    n: int,
    k: int,
    a: Search,
    b: Search,
    mid: Seq<i128>,
    g: Trail,
    j0: int,
    j1: int,
    delta: int,
)
    requires
        step_pre(cost, n, k, a, b, mid, g, j0, j1, delta),
    ensures
        b.p[j1] != 0 ==> search_inv(cost, n, k, b, j1, next_trail(g, j0, j1, delta)),
        b.p[j1] == 0 ==> path_found(cost, n, k, b, j1, next_trail(g, j0, j1, delta)),
{
    lemma_shift_law(cost, n, k, a, b, mid, g, j0, j1, delta);
    lemma_step_duals(cost, n, k, a, b, mid, g, j0, j1, delta);
    lemma_step_tree(cost, n, k, a, b, mid, g, j0, j1, delta);
    lemma_step_reaches(cost, n, k, a, b, mid, g, j0, j1, delta);
    lemma_step_bounds(cost, n, k, a, b, mid, g, j0, j1, delta);
}


/// One step of the search for `row`: visits column `j0`, scans the row that
/// it holds, shifts the potentials by the least recorded value and returns
/// the column that has it.
fn advance(
    cost: &[i64],
    size: usize,
    row: usize,
    j0: usize,
    s: &mut Search,
    Ghost(g): Ghost<Trail>,
) -> (next: (usize, Ghost<Trail>))
    requires
        size * size <= usize::MAX,
        size < usize::MAX,
        1 <= row <= size,
        search_inv(cost@, size as int, row - 1, *old(s), j0 as int, g),
    ensures
        final(s).p@ == old(s).p@,
        next.0 <= size,
        next.1@.col_of == g.col_of,
        next.1@.order.len() == g.order.len() + 1,
        final(s).p[next.0 as int] != 0 ==> search_inv(
            cost@,
            size as int,
            row - 1,
            *final(s),
            next.0 as int,
            next.1@,
        ),
        final(s).p[next.0 as int] == 0 ==> path_found(
            cost@,
            size as int,
            row - 1,
            *final(s),
            next.0 as int,
            next.1@,
        ),
{
    let ghost a: Search = *s;
    let ghost n: int = size as int;
    let ghost k: int = row - 1;
    s.used.set(j0, true);
    let i0: usize = s.p[j0];
    proof {
        assert(span(k) <= 0x1_0000_0000_0000_0000 * 0xffff_ffff);
        assert(1 <= i0 <= k + 1);
        assert forall|j: int| 1 <= j <= n implies -dual_bound() <= #[trigger] s.v[j]
            <= dual_bound() by {
            assert(a.v[j] <= 0);
        }
        if i0 != k + 1 {
            assert(-cost_bound() <= a.u[i0 as int]);
        }
    }
    let best = scan_row(cost, size, i0, j0, &s.u, &s.v, &s.used, &mut s.minv, &mut s.way);
    let delta: i128 = best.0;
    let j1: usize = best.1;
    let ghost mid: Seq<i128> = s.minv@;
    proof {
        let used1 = a.used@.update(j0 as int, true);
        assert(s.used@ == used1);
        assert(scanned(cost@, n, a, mid, s.way@, j0 as int, j1 as int, delta as int));
        lemma_scan(cost@, n, k, a, mid, s.way@, g, j0 as int, j1 as int, delta as int);
        assert forall|j: int| 0 <= j <= n && #[trigger] s.used[j] implies g.col_of[s.p[j] as int]
            == j by {
            if j == 0 {
                assert(g.col_of[k + 1] == 0);
            } else {
                if j != j0 {
                    assert(a.used[j]);
                }
                assert(a.p[j] != 0);
            }
        }
        assert forall|r: int| 0 <= r <= n implies -dual_bound() <= #[trigger] s.u[r]
            <= dual_bound() by {
            if r != k + 1 {
                assert(-cost_bound() <= a.u[r] <= cost_bound() + span(k) + g.spent);
            }
        }
        assert forall|j: int| 0 <= j <= n implies -dual_bound() <= #[trigger] s.v[j]
            <= dual_bound() by {
            if j != 0 {
                assert(a.v[j] <= 0);
            }
        }
        assert(used1[0]);
        assert forall|j: int| 0 <= j <= n && !s.used[j] implies -dual_bound() <= #[trigger] s.minv[j]
            <= dual_bound() by {
            assert(reach_mid(cost@, n, k, a, mid, s.way@, g, j0 as int, delta as int, j));
        }
    }
    shift_potentials(size, delta, &s.used, &s.p, &mut s.u, &mut s.v, &mut s.minv, Ghost(g.col_of));
    let ghost g1: Trail = next_trail(g, j0 as int, j1 as int, delta as int);
    proof {
        let used1 = a.used@.update(j0 as int, true);
        assert forall|j: int| 0 <= j <= n && used1[j] implies #[trigger] s.way[j] == a.way[j] by {
            assert(s.way[j] == scanned_way(
                cost@,
                n,
                a.u@,
                a.v@,
                used1,
                a.minv@,
                a.way@,
                i0 as int,
                j0 as int,
                j,
            ));
        }
        assert(shifted(n, a, *s, mid, g.col_of, j0 as int, delta as int));
        lemma_step(cost@, n, k, a, *s, mid, g, j0 as int, j1 as int, delta as int);
    }
    (j1, Ghost(g1))
}

/// Searches a shortest augmenting path for `row`: starts at the virtual
/// column, which holds `row`, and steps from column to column until it stands
/// at a free one, which it returns.
fn find_path(
    cost: &[i64],
    size: usize,
    row: usize,
    s: &mut Search,
    Ghost(col_of): Ghost<Seq<int>>,
) -> (end: (usize, Ghost<Trail>))
    requires
        size * size <= usize::MAX,
        size < usize::MAX,
        1 <= row <= size,
        round_inv(cost@, size as int, row - 1, *old(s), col_of),
    ensures
        path_found(cost@, size as int, row - 1, *final(s), end.0 as int, end.1@),
        end.1@.col_of == col_of,
{
    let ghost n: int = size as int;
    let ghost k: int = row - 1;
    s.p.set(0, row);
    s.minv = vec![UNREACHED; size + 1];
    s.used = vec![false; size + 1];
    let ghost mut g: Trail = Trail {
        col_of: col_of,
        rank: Seq::new((size + 1) as nat, |i: int| 0int),
        order: Seq::empty(),
        spent: 0,
    };
    let mut j0: usize = 0;
    proof {
        assert(duals_ok(cost@, n, k, s.u@, s.v@, s.p@));
        assert(matched_ok(n, k, s.p@, g.col_of));
        assert(tree_ok(cost@, n, *s, g, 0));
        assert(search_bounds(n, k, 0, true, s.u@, s.v@));
    }
    loop
        invariant_except_break
            search_inv(cost@, size as int, row - 1, *s, j0 as int, g),
        invariant
            size * size <= usize::MAX,
            size < usize::MAX,
            1 <= row <= size,
            g.col_of == col_of,
            j0 <= size,
        ensures
            path_found(cost@, size as int, row - 1, *s, j0 as int, g),
        decreases size + 1 - g.order.len(),
    {
        let next = advance(cost, size, row, j0, s, Ghost(g));
        j0 = next.0;
        proof {
            g = next.1@;
        }
        if s.p[j0] == 0 {
            break ;
        }
        proof {
            lemma_order_bounded(g.order, g.rank, size as int);
        }
    }
    (j0, Ghost(g))
}

/// What holds while the path is turned over, the walk standing at column `c`:
/// every matched row but the one that `c` still holds has its column in `col`.
pub open spec fn augment_inv(
    cost: Seq<i64>,
    n: int,
    k: int,
    a: Search,
    s: Search,
    g: Trail,
    j_end: int,
    c: int,
    col: Seq<int>,
) -> bool {
    &&& lens_ok(s, n)
    &&& s.u@ == a.u@
    &&& s.v@ == a.v@
    &&& s.way@ == a.way@
    &&& col.len() == n + 1
    &&& 1 <= c <= n
    &&& a.used[c] || c == j_end
    &&& s.p[0] == k + 1
    &&& forall|j: int| 0 <= j <= n ==> #[trigger] s.p[j] <= n
    &&& forall|r: int|
        1 <= r <= k ==> 1 <= #[trigger] col[r] <= n && col[r] != c && s.p[col[r]] == r
    &&& forall|r: int| 0 <= r <= n && !(1 <= r <= k) ==> #[trigger] col[r] == 0
    &&& forall|j: int|
        1 <= j <= n && j != c && #[trigger] s.p[j] != 0 ==> s.p[j] <= k && col[s.p[j] as int] == j
            && reduced(cost, n, s.u@, s.v@, s.p[j] as int, j) == 0
    &&& forall|j: int|
        0 <= j <= n && (a.used[j] || j == j_end) && g.rank[j] <= g.rank[c] ==> #[trigger] s.p[j]
            == a.p[j]
    &&& forall|j: int| 1 <= j <= n && #[trigger] s.p[j] == 0 ==> a.p[j] == 0
}

/// Turns the found path over: walks back from the free column `j_end` along
/// the predecessors and gives each column on the way the row that its
/// predecessor held, so that `row` is matched as well.
fn augment(
    size: usize,
    row: usize,
    j_end: usize,
    s: &mut Search,
    Ghost(cost): Ghost<Seq<i64>>,
    Ghost(g): Ghost<Trail>,
) -> (col: Ghost<Seq<int>>)
    requires
        size < usize::MAX,
        1 <= row <= size,
        path_found(cost, size as int, row - 1, *old(s), j_end as int, g),
    ensures
        round_inv(cost, size as int, row as int, *final(s), col@),
{
    let ghost a: Search = *s;
    let ghost n: int = size as int;
    let ghost k: int = row - 1;
    let ghost mut col: Seq<int> = g.col_of;
    let mut j0: usize = j_end;
    proof {
        assert forall|r: int| 1 <= r <= k implies 1 <= #[trigger] col[r] <= n && col[r] != j0
            && s.p[col[r]] == r by {}
    }
    loop
        invariant_except_break
            augment_inv(cost, n, k, a, *s, g, j_end as int, j0 as int, col),
        invariant
            n == size,
            k == row - 1,
            size < usize::MAX,
            1 <= row <= size,
            path_found(cost, n, k, a, j_end as int, g),
        ensures
            round_inv(cost, n, k + 1, *s, col),
        decreases g.rank[j0 as int],
    {
        let ghost before: Search = *s;
        let ghost col0: Seq<int> = col;
        let ghost c: int = j0 as int;
        proof {
            assert(linked(cost, n, a, g.rank, c));
        }
        let j1: usize = s.way[j0];
        let r: usize = s.p[j1];
        proof {
            assert(a.used[j1 as int]);
            assert(a.p[j1 as int] != 0);
            assert(r == a.p[j1 as int]);
            assert(0 <= g.rank[j1 as int]);
        }
        s.p.set(j0, r);
        proof {
            col = col.update(r as int, c);
        }
        j0 = j1;
        if j0 == 0 {
            proof {
                assert(r == k + 1);
                assert(matched_ok(n, k + 1, s.p@, col)) by {
                    assert forall|x: int| 1 <= x <= k + 1 implies 1 <= #[trigger] col[x] <= n
                        && s.p[col[x]] == x by {
                        if x <= k {
                            assert(col0[x] != c);
                        }
                    }
                    assert forall|j: int| 1 <= j <= n && #[trigger] s.p[j] != 0 implies s.p[j] <= k
                        + 1 && col[s.p[j] as int] == j by {
                        if j != c {
                            assert(before.p[j] != 0);
                        }
                    }
                }
                assert(duals_ok(cost, n, k + 1, s.u@, s.v@, s.p@)) by {
                    assert forall|j: int| 1 <= j <= n && #[trigger] s.p[j] != 0 implies reduced(
                        cost,
                        n,
                        s.u@,
                        s.v@,
                        s.p[j] as int,
                        j,
                    ) == 0 by {
                        if j != c {
                            assert(before.p[j] != 0);
                        }
                    }
                    assert forall|j: int| 1 <= j <= n implies #[trigger] s.v[j] <= 0 && (s.p[j]
                        == 0 ==> s.v[j] == 0) by {
                        assert(a.v[j] <= 0);
                        if s.p[j] == 0 {
                            assert(before.p[j] == 0);
                            assert(a.p[j] == 0);
                        }
                    }
                }
            }
            break ;
        }
        proof {
            assert(r <= k && col0[r as int] == j1) by {
                assert(before.p[j1 as int] != 0);
            }
            assert forall|x: int| 1 <= x <= k implies 1 <= #[trigger] col[x] <= n && col[x] != j1
                && s.p[col[x]] == x by {
                if x != r {
                    assert(col0[x] != c);
                    assert(before.p[col0[x]] == x);
                }
            }
            assert forall|j: int| 1 <= j <= n && j != j1 && #[trigger] s.p[j] != 0 implies s.p[j]
                <= k && col[s.p[j] as int] == j && reduced(
                cost,
                n,
                s.u@,
                s.v@,
                s.p[j] as int,
                j,
            ) == 0 by {
                if j != c {
                    assert(before.p[j] != 0);
                }
            }
            assert forall|j: int|
                0 <= j <= n && (a.used[j] || j == j_end) && g.rank[j]
                    <= g.rank[j1 as int] implies #[trigger] s.p[j] == a.p[j] by {
                assert(before.p[j] == a.p[j]);
            }
            assert forall|j: int| 1 <= j <= n && #[trigger] s.p[j] == 0 implies a.p[j] == 0 by {
                assert(before.p[j] == 0);
            }
        }
    }
    Ghost(col)
}


/// The matching that sends each row to the column that holds it, rows and
/// columns counted from 0.
pub open spec fn matching_of(col_of: Seq<int>, n: int) -> Seq<int> {
    Seq::new(n as nat, |r: int| col_of[r + 1] - 1)
}

/// When every row is matched, the match map is complete, and the potentials
/// certify that its matching costs no more than any other.
pub proof fn lemma_round_optimal(cost: Seq<i64>, n: int, s: Search, col_of: Seq<int>)
    requires
        round_inv(cost, n, n, s, col_of),
    ensures
        is_match_map(s.p@, n),
        is_inverse_of(s.p@, matching_of(col_of, n), n),
        is_minimum_square_matching(cost, n, matching_of(col_of, n)),
{
    let m = matching_of(col_of, n);
    assert(is_perfect_matching(m, n)) by {
        assert forall|i: int| 0 <= i < n implies 0 <= #[trigger] m[i] < n by {
            assert(1 <= col_of[i + 1] <= n);
        }
        assert forall|i: int, j: int| 0 <= i < j < n implies m[i] != m[j] by {
            assert(s.p[col_of[i + 1]] == i + 1);
            assert(s.p[col_of[j + 1]] == j + 1);
        }
    }
    assert(is_inverse_of(s.p@, m, n)) by {
        assert forall|r: int| 0 <= r < n implies 0 <= #[trigger] m[r] < n && s.p[m[r] + 1] == r
            + 1 by {
            assert(s.p[col_of[r + 1]] == r + 1);
        }
    }
    lemma_matching_is_onto(m, n);
    assert forall|j: int| 1 <= j <= n implies 1 <= #[trigger] s.p[j] <= n by {
        assert(m.contains(j - 1));
        let r = choose|r: int| 0 <= r < m.len() && m[r] == j - 1;
        assert(s.p[col_of[r + 1]] == r + 1);
    }
    assert forall|i: int, j: int| 1 <= i < j <= n implies s.p[i] != s.p[j] by {
        assert(s.p[i] != 0 && s.p[j] != 0);
        assert(col_of[s.p[i] as int] == i);
        assert(col_of[s.p[j] as int] == j);
    }
    let c = |i: int, j: int| square_cell(cost, n, i, j);
    let u = Seq::new(n as nat, |r: int| s.u[r + 1] as int);
    let v = Seq::new(n as nat, |j: int| s.v[j + 1] as int);
    assert forall|i: int, j: int| 0 <= i < n && 0 <= j < n implies u[i] + v[j] <= #[trigger] c(
        i,
        j,
    ) by {
        assert(reduced(cost, n, s.u@, s.v@, i + 1, j + 1) >= 0);
        assert((i + 1 - 1) * n + (j + 1 - 1) == i * n + j);
    }
    assert forall|i: int| 0 <= i < n implies u[i] + v[m[i]] == #[trigger] c(i, m[i]) by {
        let j = col_of[i + 1];
        assert(s.p[j] == i + 1);
        assert(reduced(cost, n, s.u@, s.v@, s.p[j] as int, j) == 0);
        assert((i + 1 - 1) * n + (j - 1) == i * n + m[i]);
    }
    assert forall|t: Seq<int>| is_perfect_matching(t, n) implies square_matching_cost(cost, n, m)
        <= #[trigger] square_matching_cost(cost, n, t) by {
        lemma_dual_certificate(c, n, m, t, u, v);
        lemma_sum_eq(|i: int| c(i, m[i]), |i: int| square_cell(cost, n, i, m[i]), n);
        lemma_sum_eq(|i: int| c(i, t[i]), |i: int| square_cell(cost, n, i, t[i]), n);
    }
}

/// A side whose square can be addressed is below two to the thirty-second
/// and below the greatest address.
pub proof fn lemma_side_fits(size: int, limit: int)
    requires
        0 <= size,
        size * size <= limit,
        0xffff_ffff <= limit <= 0xffff_ffff_ffff_ffff,
    ensures
        size <= 0xffff_ffff,
        size < limit,
{
    assert(size <= 0xffff_ffff) by (nonlinear_arith)
        requires
            0 <= size,
            size * size <= 0xffff_ffff_ffff_ffff,
    ;
    assert(size < limit) by (nonlinear_arith)
        requires
            0 <= size <= 0xffff_ffff,
            size * size <= limit,
            0xffff_ffff <= limit,
    ;
}

/// Solves the square assignment problem of side `size` on the matrix `cost`,
/// stored row by row: returns the match map, which gives for each column
/// `1..=size` the row `1..=size` matched to it, and which is the inverse of a
/// perfect matching of least total cost.
pub fn solve_assignment(cost: &[i64], size: usize) -> (p: Vec<usize>)
    requires
        cost@.len() == size * size,
    ensures
        is_match_map(p@, size as int),
        exists|s: Seq<int>| #[trigger]
            is_minimum_square_matching(cost@, size as int, s) && is_inverse_of(p@, s, size as int),
{
    proof {
        assert(cost.len() == size * size);
        lemma_side_fits(size as int, usize::MAX as int);
    }
    let mut s = Search {
        u: vec![0i128; size + 1],
        v: vec![0i128; size + 1],
        p: vec![0usize; size + 1],
        way: vec![0usize; size + 1],
        minv: Vec::new(),
        used: Vec::new(),
    };
    let ghost mut col_of: Seq<int> = Seq::new((size + 1) as nat, |i: int| 0int);
    let mut row: usize = 1;
    proof {
        assert(matched_ok(size as int, 0, s.p@, col_of));
        assert(duals_ok(cost@, size as int, 0, s.u@, s.v@, s.p@));
        assert(bounds_ok(size as int, 0, s.u@, s.v@));
    }
    while row <= size
        invariant
            1 <= row <= size + 1,
            size * size <= usize::MAX,
            size < usize::MAX,
            round_inv(cost@, size as int, row - 1, s, col_of),
        decreases size + 1 - row,
    {
        let end = find_path(cost, size, row, &mut s, Ghost(col_of));
        let col = augment(size, row, end.0, &mut s, Ghost(cost@), end.1);
        proof {
            col_of = col@;
        }
        row = row + 1;
    }
    proof {
        lemma_round_optimal(cost@, size as int, s, col_of);
        let m = matching_of(col_of, size as int);
        assert(is_minimum_square_matching(cost@, size as int, m) && is_inverse_of(
            s.p@,
            m,
            size as int,
        ));
    }
    s.p
}

} // verus!
