//! The assignment of rows to columns at least total cost.

use vstd::prelude::*;
use crate::laws::{lemma_empty_window, lemma_minimum_transfers, lemma_optimal_assignment};
use crate::matrix::{build_padded_matrix, padded_size};
use crate::model::{
    assigned_count, assignment_cost, is_inverse_of, is_minimum_matching,
    is_minimum_square_matching, is_minimum_total, is_optimal_assignment, is_projection,
    is_valid_assignment, lesser_side, projected_entry, square_size,
};
use crate::projector::{project_assignment, MAX_COLS};
use crate::solver::solve_assignment;

verus! {

/// Why no assignment was computed.
#[derive(Debug, Clone, Copy, PartialEq, Eq)]
pub enum SolveError {
    /// The cost matrix does not hold one cost for each pair of a row and a column.
    DimensionMismatch,
    /// The padded square matrix would have more cells than can be addressed,
    /// or a column number would not fit the result.
    TooLarge,
}

/// The sizes that can be solved: an empty matrix of any shape, and otherwise
/// one whose padded square form can be addressed and whose columns can be
/// named in the result.
pub open spec fn is_solvable_size(rows: int, cols: int) -> bool {
    rows == 0 || cols == 0 || (square_size(rows, cols) * square_size(rows, cols) <= usize::MAX
        && cols <= MAX_COLS)
}

/// Checks that `len` costs fill a matrix of `num_rows` rows and `num_cols`
/// columns, and that a matrix of that shape can be solved.
pub fn check_dimensions(len: usize, num_rows: usize, num_cols: usize) -> (result: Result<
    (),
    SolveError,
>)
    ensures
        len != num_rows * num_cols ==> result == Err::<(), SolveError>(
            SolveError::DimensionMismatch,
        ),
        len == num_rows * num_cols && !is_solvable_size(num_rows as int, num_cols as int)
            ==> result == Err::<(), SolveError>(SolveError::TooLarge),
        len == num_rows * num_cols && is_solvable_size(num_rows as int, num_cols as int)
            ==> result is Ok,
{
    match num_rows.checked_mul(num_cols) {
        None => {
            return Err(SolveError::DimensionMismatch);
        },
        Some(cells) => {
            if cells != len {
                return Err(SolveError::DimensionMismatch);
            }
        },
    }
    if num_rows == 0 || num_cols == 0 {
        return Ok(());
    }
    let size: usize = padded_size(num_rows, num_cols);
    if size.checked_mul(size).is_none() || num_cols > MAX_COLS {
        return Err(SolveError::TooLarge);
    }
    Ok(())
}

/// Solves the square problem on `cost`, a matrix of side `size` stored row by
/// row, and returns for each of the first `n` rows its column among the first
/// `m`, or `-1` where the row is matched to a later column.
pub fn hungarian_core(cost: &[i64], size: usize, n: usize, m: usize) -> (assignment: Vec<i32>)
    requires
        cost@.len() == size * size,
        n <= size,
        m <= size,
        m <= MAX_COLS,
    ensures
        exists|s: Seq<int>| #[trigger]
            is_minimum_square_matching(cost@, size as int, s) && is_projection(
                assignment@,
                s,
                n as int,
                m as int,
            ),
{
    let p = solve_assignment(cost, size);
    let assignment = project_assignment(&p, size, n, m);
    proof {
        let s = choose|s: Seq<int>| #[trigger]
            is_minimum_square_matching(cost@, size as int, s) && is_inverse_of(p@, s, size as int);
        assert forall|i: int| 0 <= i < n implies #[trigger] assignment[i] as int
            == projected_entry(s[i], m as int) by {
            assert(p[s[i] + 1] == i + 1);
        }
        assert(is_minimum_square_matching(cost@, size as int, s) && is_projection(
            assignment@,
            s,
            n as int,
            m as int,
        ));
    }
    assignment
}

/// Assigns each of `num_rows` rows a column of its own among `num_cols`, at
/// the least total cost, `cost_matrix` holding the cost of each pair row by
/// row. Entry `i` of the result is the column of row `i`, or `-1` where there
/// are more rows than columns and the row goes without one.
pub fn hungarian_algorithm(cost_matrix: &[i64], num_rows: usize, num_cols: usize) -> (result:
    Result<Vec<i32>, SolveError>)
    ensures
        cost_matrix@.len() != num_rows * num_cols ==> result == Err::<Vec<i32>, SolveError>(
            SolveError::DimensionMismatch,
        ),
        cost_matrix@.len() == num_rows * num_cols && !is_solvable_size(
            num_rows as int,
            num_cols as int,
        ) ==> result == Err::<Vec<i32>, SolveError>(SolveError::TooLarge),
        cost_matrix@.len() == num_rows * num_cols && is_solvable_size(
            num_rows as int,
            num_cols as int,
        ) ==> result is Ok,
        result matches Ok(a) ==> {
            &&& is_optimal_assignment(cost_matrix@, num_rows as int, num_cols as int, a@)
            &&& is_valid_assignment(a@, num_rows as int, num_cols as int)
            &&& assigned_count(a@) == lesser_side(num_rows as int, num_cols as int)
            &&& num_rows <= num_cols ==> forall|i: int| 0 <= i < num_rows ==> 0 <= #[trigger] a[i]
            &&& num_cols == 0 ==> forall|i: int| 0 <= i < num_rows ==> #[trigger] a[i] == -1
            &&& is_minimum_total(
                cost_matrix@,
                num_rows as int,
                num_cols as int,
                assignment_cost(cost_matrix@, num_cols as int, a@),
            )
        },
{
    let n: usize = num_rows;
    let m: usize = num_cols;
    proof {
        assert(cost_matrix.len() == cost_matrix@.len());
    }
    match check_dimensions(cost_matrix.len(), n, m) {
        Err(e) => {
            return Err(e);
        },
        Ok(_) => {},
    }
    if n == 0 || m == 0 {
        let unassigned: Vec<i32> = vec![-1i32; n];
        proof {
            lemma_empty_window(cost_matrix@, n as int, m as int, unassigned@);
            lemma_optimal_assignment(cost_matrix@, n as int, m as int, unassigned@);
        }
        return Ok(unassigned);
    }
    let size: usize = padded_size(n, m);
    let cost = build_padded_matrix(cost_matrix, n, m);
    let assignment = hungarian_core(cost.as_slice(), size, n, m);
    proof {
        let s = choose|s: Seq<int>| #[trigger]
            is_minimum_square_matching(cost@, size as int, s) && is_projection(
                assignment@,
                s,
                n as int,
                m as int,
            );
        lemma_minimum_transfers(cost@, cost_matrix@, n as int, m as int, s);
        assert(is_minimum_matching(cost_matrix@, n as int, m as int, s)
            && is_projection(assignment@, s, n as int, m as int));
        lemma_optimal_assignment(cost_matrix@, n as int, m as int, assignment@);
    }
    Ok(assignment)
}

} // verus!
