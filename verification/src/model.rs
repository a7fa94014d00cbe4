//! The mathematical model of the assignment problem.

use vstd::prelude::*;

verus! {

/// Side of the square matrix that a `rows` by `cols` matrix is padded to.
pub open spec fn square_size(rows: int, cols: int) -> int {
    if rows >= cols {
        rows
    } else {
        cols
    }
}

/// Cell `(i, j)` of the zero-padded matrix: the given cost inside the `rows`
/// by `cols` window, zero outside of it.
pub open spec fn padded_cost(cost: Seq<i64>, rows: int, cols: int, i: int, j: int) -> int {
    if 0 <= i < rows && 0 <= j < cols {
        cost[i * cols + j] as int
    } else {
        0
    }
}

/// Cell `(i, j)` of a square matrix of side `size` stored row by row.
pub open spec fn square_cell(matrix: Seq<i64>, size: int, i: int, j: int) -> int {
    matrix[i * size + j] as int
}

/// `matrix` is the zero-padded square form of the `rows` by `cols` matrix `cost`.
pub open spec fn is_padded_matrix(matrix: Seq<i64>, cost: Seq<i64>, rows: int, cols: int) -> bool {
    let size = square_size(rows, cols);
    &&& matrix.len() == size * size
    &&& forall|i: int, j: int|
        0 <= i < size && 0 <= j < size ==> #[trigger] square_cell(matrix, size, i, j)
            == padded_cost(cost, rows, cols, i, j)
}

/// `s` assigns to each of `n` rows a column of its own: a perfect matching of
/// the square problem of side `n`, written row by row.
pub open spec fn is_perfect_matching(s: Seq<int>, n: int) -> bool {
    &&& s.len() == n
    &&& forall|i: int| 0 <= i < n ==> 0 <= #[trigger] s[i] < n
    &&& forall|i: int, j: int| 0 <= i < j < n ==> s[i] != s[j]
}

/// Sum of `f(0) + ... + f(n - 1)`.
pub open spec fn sum_to(f: spec_fn(int) -> int, n: int) -> int
    decreases n,
{
    if n <= 0 {
        0
    } else {
        sum_to(f, n - 1) + f(n - 1)
    }
}

/// Total cost of the perfect matching `s` in the square matrix `matrix`.
pub open spec fn square_matching_cost(matrix: Seq<i64>, size: int, s: Seq<int>) -> int {
    sum_to(|i: int| square_cell(matrix, size, i, s[i]), size)
}

/// Total cost of the perfect matching `s` in the zero-padded form of `cost`.
pub open spec fn matching_cost(cost: Seq<i64>, rows: int, cols: int, s: Seq<int>) -> int {
    sum_to(|i: int| padded_cost(cost, rows, cols, i, s[i]), square_size(rows, cols))
}

/// `s` is a perfect matching of the square matrix and no perfect matching costs less.
pub open spec fn is_minimum_square_matching(matrix: Seq<i64>, size: int, s: Seq<int>) -> bool {
    &&& is_perfect_matching(s, size)
    &&& forall|t: Seq<int>|
        is_perfect_matching(t, size) ==> square_matching_cost(matrix, size, s)
            <= #[trigger] square_matching_cost(matrix, size, t)
}

/// `s` is a perfect matching of the zero-padded form of `cost` and no perfect
/// matching of it costs less.
pub open spec fn is_minimum_matching(cost: Seq<i64>, rows: int, cols: int, s: Seq<int>) -> bool {
    &&& is_perfect_matching(s, square_size(rows, cols))
    &&& forall|t: Seq<int>|
        is_perfect_matching(t, square_size(rows, cols)) ==> matching_cost(cost, rows, cols, s)
            <= #[trigger] matching_cost(cost, rows, cols, t)
}

/// What row `i` is given when the matching sends it to column `j`: the column
/// itself where it is one of the `cols` given columns, `-1` where it is padding.
pub open spec fn projected_entry(j: int, cols: int) -> int {
    if j < cols {
        j
    } else {
        -1
    }
}

/// `a` is the matching `s` restricted to the `rows` given rows, with `-1`
/// for each row that `s` sends to a padding column.
pub open spec fn is_projection(a: Seq<i32>, s: Seq<int>, rows: int, cols: int) -> bool {
    &&& a.len() == rows
    &&& forall|i: int| 0 <= i < rows ==> #[trigger] a[i] as int == projected_entry(s[i], cols)
}

/// `a` is the projection of some minimum-cost perfect matching of the
/// zero-padded form of `cost`.
pub open spec fn is_optimal_assignment(cost: Seq<i64>, rows: int, cols: int, a: Seq<i32>) -> bool {
    exists|s: Seq<int>| #[trigger]
        is_minimum_matching(cost, rows, cols, s) && is_projection(a, s, rows, cols)
}

/// Every entry of `a` is `-1` or a column below `cols`, and no column occurs twice.
pub open spec fn is_valid_assignment(a: Seq<i32>, rows: int, cols: int) -> bool {
    &&& a.len() == rows
    &&& forall|i: int| 0 <= i < rows ==> -1 <= #[trigger] a[i] < cols
    &&& forall|i: int, j: int| 0 <= i < j < rows && a[i] != -1 ==> a[i] != a[j]
}

/// Number of rows of `a` that received a column.
pub open spec fn assigned_count(a: Seq<i32>) -> int {
    sum_to(
        |i: int|
            if a[i] >= 0 {
                1int
            } else {
                0int
            },
        a.len() as int,
    )
}

/// Cost that row `i` pays under the assignment `a`: nothing if it is unassigned.
pub open spec fn assigned_entry_cost(cost: Seq<i64>, cols: int, a: Seq<i32>, i: int) -> int {
    if a[i] >= 0 {
        cost[i * cols + a[i]] as int
    } else {
        0
    }
}

/// Sum of the costs at the assigned cells of `a`.
pub open spec fn assignment_cost(cost: Seq<i64>, cols: int, a: Seq<i32>) -> int {
    sum_to(|i: int| assigned_entry_cost(cost, cols, a, i), a.len() as int)
}


/// `p` is a complete match map of side `n`: for each column `1..=n` the row
/// `1..=n` that it is matched to, no row twice. Entry 0 belongs to no column.
pub open spec fn is_match_map(p: Seq<usize>, n: int) -> bool {
    &&& p.len() == n + 1
    &&& forall|j: int| 1 <= j <= n ==> 1 <= #[trigger] p[j] <= n
    &&& forall|i: int, j: int| 1 <= i < j <= n ==> p[i] != p[j]
}

/// The perfect matching `s`, which counts rows and columns from 0, sends each
/// row to the column that holds it in the match map `p`, which counts from 1.
pub open spec fn is_inverse_of(p: Seq<usize>, s: Seq<int>, n: int) -> bool {
    &&& s.len() == n
    &&& forall|r: int| 0 <= r < n ==> 0 <= #[trigger] s[r] < n && p[s[r] + 1] == r + 1
}


/// `total` is the least total cost of a perfect matching of the zero-padded
/// form of `cost`: some perfect matching has it and none has less.
pub open spec fn is_minimum_total(cost: Seq<i64>, rows: int, cols: int, total: int) -> bool {
    &&& exists|s: Seq<int>|
        is_perfect_matching(s, square_size(rows, cols)) && #[trigger] matching_cost(
            cost,
            rows,
            cols,
            s,
        ) == total
    &&& forall|t: Seq<int>|
        is_perfect_matching(t, square_size(rows, cols)) ==> total <= #[trigger] matching_cost(
            cost,
            rows,
            cols,
            t,
        )
}

/// The lesser of the numbers of rows and columns.
pub open spec fn lesser_side(rows: int, cols: int) -> int {
    if rows <= cols {
        rows
    } else {
        cols
    }
}

} // verus!
