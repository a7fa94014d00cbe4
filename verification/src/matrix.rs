//! Building the zero-padded square matrix, in one task or row by row in
//! parallel.

use vstd::prelude::*;
use rayon::iter::{IntoParallelIterator, ParallelIterator};
use crate::model::{is_padded_matrix, padded_cost, square_cell, square_size};

verus! {

/// The side above which the matrix is built in parallel.
pub const PARALLEL_THRESHOLD: usize = 50;

/// A cell inside an `n` by `m` window lies inside the flat matrix.
pub proof fn lemma_window_index(n: int, m: int, i: int, j: int)
    requires
        0 <= i < n,
        0 <= j < m,
    ensures
        0 <= i * m + j < n * m,
        0 <= i * m,
{
    assert(0 <= i * m && i * m + m <= n * m) by (nonlinear_arith)
        requires
            0 <= i < n,
            0 <= m,
    ;
}

/// Two cells of a row-major matrix with the same flat index are the same cell.
pub proof fn lemma_index_unique(size: int, i: int, j: int, a: int, b: int)
    requires
        0 <= j < size,
        0 <= b < size,
        0 <= i,
        0 <= a,
        i * size + j == a * size + b,
    ensures
        i == a,
        j == b,
{
    assert(i == a) by (nonlinear_arith)
        requires
            0 <= j < size,
            0 <= b < size,
            0 <= i,
            0 <= a,
            i * size + j == a * size + b,
    ;
}

/// The side of the square matrix for `n` rows and `m` columns.
pub fn padded_size(n: usize, m: usize) -> (size: usize)
    ensures
        size == square_size(n as int, m as int),
{
    if n >= m {
        n
    } else {
        m
    }
}

/// Row `i` of the zero-padded matrix.
pub fn padded_row(cost_matrix: &[i64], n: usize, m: usize, size: usize, i: usize) -> (row: Vec<i64>)
    requires
        cost_matrix@.len() == n * m,
        size == square_size(n as int, m as int),
        i < size,
    ensures
        row.len() == size,
        forall|j: int|
            0 <= j < size ==> #[trigger] row[j] as int == padded_cost(
                cost_matrix@,
                n as int,
                m as int,
                i as int,
                j,
            ),
{
    let mut row: Vec<i64> = Vec::new();
    let mut j: usize = 0;
    while j < size
        invariant
            0 <= j <= size,
            cost_matrix@.len() == n * m,
            size == square_size(n as int, m as int),
            i < size,
            row.len() == j,
            forall|c: int|
                0 <= c < j ==> #[trigger] row[c] as int == padded_cost(
                    cost_matrix@,
                    n as int,
                    m as int,
                    i as int,
                    c,
                ),
        decreases size - j,
    {
        if i < n && j < m {
            proof {
                assert(cost_matrix.len() == n * m);
                lemma_window_index(n as int, m as int, i as int, j as int);
            }
            row.push(cost_matrix[i * m + j]);
        } else {
            row.push(0);
        }
        j = j + 1;
    }
    row
}

/// Builds the zero-padded matrix in one task: a matrix of zeros into which
/// the given costs are copied.
pub fn build_sequential(cost_matrix: &[i64], n: usize, m: usize, size: usize) -> (cost: Vec<i64>)
    requires
        cost_matrix@.len() == n * m,
        size == square_size(n as int, m as int),
        size * size <= usize::MAX,
    ensures
        is_padded_matrix(cost@, cost_matrix@, n as int, m as int),
{
    let mut cost: Vec<i64> = vec![0i64; size * size];
    let mut i: usize = 0;
    proof {
        assert forall|a: int, b: int| 0 <= a < size && 0 <= b < size implies #[trigger] square_cell(
            cost@,
            size as int,
            a,
            b,
        ) == 0 by {
            lemma_window_index(size as int, size as int, a, b);
        }
    }
    while i < size
        invariant
            0 <= i <= size,
            cost_matrix@.len() == n * m,
            size == square_size(n as int, m as int),
            size * size <= usize::MAX,
            cost.len() == size * size,
            forall|a: int, b: int|
                0 <= a < size && 0 <= b < size ==> #[trigger] square_cell(cost@, size as int, a, b)
                    == (if a < i {
                    padded_cost(cost_matrix@, n as int, m as int, a, b)
                } else {
                    0
                }),
        decreases size - i,
    {
        let mut j: usize = 0;
        while j < size
            invariant
                0 <= j <= size,
                i < size,
                cost_matrix@.len() == n * m,
                size == square_size(n as int, m as int),
                size * size <= usize::MAX,
                cost.len() == size * size,
                forall|a: int, b: int|
                    0 <= a < size && 0 <= b < size ==> #[trigger] square_cell(
                        cost@,
                        size as int,
                        a,
                        b,
                    ) == (if a < i || (a == i && b < j) {
                        padded_cost(cost_matrix@, n as int, m as int, a, b)
                    } else {
                        0
                    }),
            decreases size - j,
        {
            if i < n && j < m {
                proof {
                    assert(cost_matrix.len() == n * m);
                    lemma_window_index(n as int, m as int, i as int, j as int);
                    lemma_window_index(size as int, size as int, i as int, j as int);
                }
                let ghost before: Seq<i64> = cost@;
                let value: i64 = cost_matrix[i * m + j];
                cost.set(i * size + j, value);
                proof {
                    assert forall|a: int, b: int| 0 <= a < size && 0 <= b < size implies #[trigger] square_cell(
                        cost@,
                        size as int,
                        a,
                        b,
                    ) == (if a < i || (a == i && b < j + 1) {
                        padded_cost(cost_matrix@, n as int, m as int, a, b)
                    } else {
                        0
                    }) by {
                        if a * size + b == i * size + j {
                            lemma_index_unique(size as int, i as int, j as int, a, b);
                        } else {
                            lemma_window_index(size as int, size as int, a, b);
                            assert(square_cell(cost@, size as int, a, b) == square_cell(
                                before,
                                size as int,
                                a,
                                b,
                            ));
                        }
                    }
                }
            }
            j = j + 1;
        }
        i = i + 1;
    }
    cost
}

/// Builds the zero-padded matrix row by row on rayon's worker pool.
///
/// Trusted: `rayon::iter::ParallelIterator::flat_map_iter` on the range of
/// row numbers, collected into a `Vec`. The contract claims that the rows
/// which `padded_row` returns come out one after the other in the order of
/// their numbers, whichever worker computed which of them. Rayon panics where
/// the environment lets it start no worker pool.
#[verifier::external_body]
fn padded_rows_in_parallel(cost_matrix: &[i64], n: usize, m: usize, size: usize) -> (cost: Vec<i64>)
    requires
        cost_matrix@.len() == n * m,
        size == square_size(n as int, m as int),
        size * size <= usize::MAX,
    ensures
        cost.len() == size * size,
        forall|i: int, j: int|
            0 <= i < size && 0 <= j < size ==> #[trigger] square_cell(cost@, size as int, i, j)
                == padded_cost(cost_matrix@, n as int, m as int, i, j),
{
    (0..size).into_par_iter().flat_map_iter(|i| padded_row(cost_matrix, n, m, size, i)).collect()
}

/// Builds the zero-padded matrix in parallel. Each row is computed from its
/// number alone, so the result does not depend on how the rows are shared out.
pub fn build_parallel(cost_matrix: &[i64], n: usize, m: usize, size: usize) -> (cost: Vec<i64>)
    requires
        cost_matrix@.len() == n * m,
        size == square_size(n as int, m as int),
        size * size <= usize::MAX,
    ensures
        is_padded_matrix(cost@, cost_matrix@, n as int, m as int),
{
    padded_rows_in_parallel(cost_matrix, n, m, size)
}

/// Builds the zero-padded square matrix of an `n` by `m` cost matrix: in
/// parallel above the threshold, in one task up to it.
pub fn build_padded_matrix(cost_matrix: &[i64], n: usize, m: usize) -> (cost: Vec<i64>)
    requires
        cost_matrix@.len() == n * m,
        square_size(n as int, m as int) * square_size(n as int, m as int) <= usize::MAX,
    ensures
        is_padded_matrix(cost@, cost_matrix@, n as int, m as int),
{
    let size: usize = padded_size(n, m);
    if size > PARALLEL_THRESHOLD {
        build_parallel(cost_matrix, n, m, size)
    } else {
        build_sequential(cost_matrix, n, m, size)
    }
}

/// The zero-padded matrix is determined by the cost matrix: two matrices that
/// both are its padded form are equal cell by cell, however each was built.
pub proof fn lemma_padded_matrix_unique(
    first: Seq<i64>,
    second: Seq<i64>,
    cost: Seq<i64>,
    rows: int,
    cols: int,
)
    requires
        0 <= rows,
        0 <= cols,
        is_padded_matrix(first, cost, rows, cols),
        is_padded_matrix(second, cost, rows, cols),
    ensures
        first == second,
{
    let size = square_size(rows, cols);
    assert forall|x: int| 0 <= x < first.len() implies first[x] == second[x] by {
        let i = x / size;
        let j = x % size;
        assert(size > 0) by (nonlinear_arith)
            requires
                0 <= x < size * size,
                0 <= size,
        ;
        assert(x == i * size + j && 0 <= j < size && 0 <= i < size) by (nonlinear_arith)
            requires
                0 <= x < size * size,
                0 < size,
                i == x / size,
                j == x % size,
        ;
        assert(square_cell(first, size, i, j) == padded_cost(cost, rows, cols, i, j));
        assert(square_cell(second, size, i, j) == padded_cost(cost, rows, cols, i, j));
    }
    assert(first =~= second);
}

} // verus!
