//! What follows for an assignment from its being the projection of a
//! minimum-cost perfect matching.

use vstd::prelude::*;
use crate::model::{
    assigned_count, assigned_entry_cost, assignment_cost, is_minimum_matching,
    is_minimum_square_matching, is_minimum_total, is_optimal_assignment, is_padded_matrix,
    is_perfect_matching, is_projection, is_valid_assignment, lesser_side, matching_cost,
    padded_cost, projected_entry, square_cell, square_matching_cost, square_size, sum_to,
};
use crate::sums::{
    lemma_sum_eq, lemma_sum_indicator, lemma_sum_permutation, lemma_sum_tail_zero, lemma_sum_zero,
};

verus! {

/// A perfect matching costs the same in the padded square matrix as in the
/// zero-padded form of the cost matrix.
pub proof fn lemma_padded_costs_agree(
    matrix: Seq<i64>,
    cost: Seq<i64>,
    rows: int,
    cols: int,
    s: Seq<int>,
)
    requires
        is_padded_matrix(matrix, cost, rows, cols),
        is_perfect_matching(s, square_size(rows, cols)),
    ensures
        square_matching_cost(matrix, square_size(rows, cols), s) == matching_cost(
            cost,
            rows,
            cols,
            s,
        ),
{
    let size = square_size(rows, cols);
    assert forall|i: int| 0 <= i < size implies #[trigger] square_cell(matrix, size, i, s[i])
        == padded_cost(cost, rows, cols, i, s[i]) by {
        assert(0 <= s[i] < size);
    }
    lemma_sum_eq(
        |i: int| square_cell(matrix, size, i, s[i]),
        |i: int| padded_cost(cost, rows, cols, i, s[i]),
        size,
    );
}

/// A minimum-cost perfect matching of the padded square matrix is one of the
/// zero-padded form of the cost matrix.
pub proof fn lemma_minimum_transfers(
    matrix: Seq<i64>,
    cost: Seq<i64>,
    rows: int,
    cols: int,
    s: Seq<int>,
)
    requires
        is_padded_matrix(matrix, cost, rows, cols),
        is_minimum_square_matching(matrix, square_size(rows, cols), s),
    ensures
        is_minimum_matching(cost, rows, cols, s),
{
    let size = square_size(rows, cols);
    lemma_padded_costs_agree(matrix, cost, rows, cols, s);
    assert forall|t: Seq<int>| is_perfect_matching(t, size) implies matching_cost(
        cost,
        rows,
        cols,
        s,
    ) <= #[trigger] matching_cost(cost, rows, cols, t) by {
        lemma_padded_costs_agree(matrix, cost, rows, cols, t);
        assert(square_matching_cost(matrix, size, s) <= square_matching_cost(matrix, size, t));
    }
}

/// The projection of a perfect matching names no column twice, and each of
/// its entries is `-1` or one of the given columns.
pub proof fn lemma_projection_valid(a: Seq<i32>, s: Seq<int>, rows: int, cols: int)
    requires
        0 <= rows,
        0 <= cols,
        is_perfect_matching(s, square_size(rows, cols)),
        is_projection(a, s, rows, cols),
    ensures
        is_valid_assignment(a, rows, cols),
{
    assert forall|i: int| 0 <= i < rows implies -1 <= #[trigger] a[i] < cols by {
        assert(a[i] as int == projected_entry(s[i], cols));
        assert(0 <= s[i]);
    }
    assert forall|i: int, j: int| 0 <= i < j < rows && a[i] != -1 implies a[i] != a[j] by {
        assert(a[i] as int == projected_entry(s[i], cols));
        assert(a[j] as int == projected_entry(s[j], cols));
        assert(s[i] != s[j]);
        assert(0 <= s[j]);
    }
}

/// The projection of a perfect matching assigns a column to as many rows as
/// the lesser of the two sides: to every row where the rows are no more than
/// the columns, to as many rows as there are columns otherwise.
pub proof fn lemma_projection_count(a: Seq<i32>, s: Seq<int>, rows: int, cols: int)
    requires
        0 <= rows,
        0 <= cols,
        is_perfect_matching(s, square_size(rows, cols)),
        is_projection(a, s, rows, cols),
    ensures
        assigned_count(a) == lesser_side(rows, cols),
        rows <= cols ==> forall|i: int| 0 <= i < rows ==> 0 <= #[trigger] a[i],
{
    let flag = |i: int|
        if a[i] >= 0 {
            1int
        } else {
            0int
        };
    assert forall|i: int| 0 <= i < rows implies (#[trigger] a[i] >= 0) == (s[i] < cols) by {
        assert(a[i] as int == projected_entry(s[i], cols));
        assert(0 <= s[i]);
    }
    if rows <= cols {
        assert forall|i: int| 0 <= i < rows implies #[trigger] flag(i) == (if i < rows {
            1int
        } else {
            0int
        }) by {
            assert((a[i] >= 0) == (s[i] < cols));
            assert(s[i] < cols);
        }
        lemma_sum_indicator(flag, rows, rows);
    } else {
        let below = |j: int|
            if j < cols {
                1int
            } else {
                0int
            };
        assert forall|i: int| 0 <= i < rows implies #[trigger] flag(i) == below(s[i]) by {
            assert((a[i] >= 0) == (s[i] < cols));
        }
        lemma_sum_permutation(below, flag, s, rows);
        lemma_sum_indicator(below, cols, rows);
    }
}

/// The costs at the assigned cells of the projection of a perfect matching
/// add up to the cost of the matching: padding cells cost nothing.
pub proof fn lemma_projection_cost(cost: Seq<i64>, a: Seq<i32>, s: Seq<int>, rows: int, cols: int)
    requires
        0 <= rows,
        0 <= cols,
        is_perfect_matching(s, square_size(rows, cols)),
        is_projection(a, s, rows, cols),
    ensures
        assignment_cost(cost, cols, a) == matching_cost(cost, rows, cols, s),
{
    let size = square_size(rows, cols);
    let padded = |i: int| padded_cost(cost, rows, cols, i, s[i]);
    let paid = |i: int| assigned_entry_cost(cost, cols, a, i);
    lemma_sum_tail_zero(padded, rows, size);
    assert forall|i: int| 0 <= i < rows implies #[trigger] padded(i) == paid(i) by {
        assert(a[i] as int == projected_entry(s[i], cols));
        assert(0 <= s[i]);
    }
    lemma_sum_eq(padded, paid, rows);
}

/// An assignment that is the projection of a minimum-cost perfect matching
/// names no column twice, assigns as many rows as the lesser side has, and
/// the costs at its assigned cells add up to the least total cost of any
/// perfect matching.
pub proof fn lemma_optimal_assignment(cost: Seq<i64>, rows: int, cols: int, a: Seq<i32>)
    requires
        0 <= rows,
        0 <= cols,
        is_optimal_assignment(cost, rows, cols, a),
    ensures
        is_valid_assignment(a, rows, cols),
        assigned_count(a) == lesser_side(rows, cols),
        rows <= cols ==> forall|i: int| 0 <= i < rows ==> 0 <= #[trigger] a[i],
        is_minimum_total(cost, rows, cols, assignment_cost(cost, cols, a)),
{
    let s = choose|s: Seq<int>| #[trigger]
        is_minimum_matching(cost, rows, cols, s) && is_projection(a, s, rows, cols);
    lemma_projection_valid(a, s, rows, cols);
    lemma_projection_count(a, s, rows, cols);
    lemma_projection_cost(cost, a, s, rows, cols);
    assert(is_perfect_matching(s, square_size(rows, cols)) && matching_cost(cost, rows, cols, s)
        == assignment_cost(cost, cols, a));
}

/// Where the cost matrix has no row or no column, every perfect matching of
/// its padded form costs nothing, so the assignment that leaves every row
/// unassigned is optimal.
pub proof fn lemma_empty_window(cost: Seq<i64>, rows: int, cols: int, a: Seq<i32>)
    requires
        0 <= rows,
        0 <= cols,
        rows == 0 || cols == 0,
        a.len() == rows,
        forall|i: int| 0 <= i < rows ==> #[trigger] a[i] == -1,
    ensures
        is_optimal_assignment(cost, rows, cols, a),
{
    let size = square_size(rows, cols);
    let s = Seq::new(size as nat, |i: int| i);
    assert(is_perfect_matching(s, size));
    lemma_sum_zero(|i: int| padded_cost(cost, rows, cols, i, s[i]), size);
    assert forall|t: Seq<int>| is_perfect_matching(t, size) implies matching_cost(
        cost,
        rows,
        cols,
        s,
    ) <= #[trigger] matching_cost(cost, rows, cols, t) by {
        lemma_sum_zero(|i: int| padded_cost(cost, rows, cols, i, t[i]), size);
    }
    assert(is_projection(a, s, rows, cols));
    assert(is_minimum_matching(cost, rows, cols, s) && is_projection(a, s, rows, cols));
}

} // verus!
