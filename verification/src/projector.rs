//! Projecting the solved square problem back onto the given rows.

use vstd::prelude::*;
use crate::model::{is_match_map, projected_entry};

verus! {

/// The most columns that an assignment can name: a column is returned as `i32`.
pub const MAX_COLS: usize = 0x8000_0000;

/// Reads the assignment of the first `n` rows off the match map `p`: a row
/// gets the column that holds it, counted from 0, where that is one of the
/// first `m` columns, and `-1` where it is a padding column. Rows beyond the
/// first `n` are dropped.
pub fn project_assignment(p: &Vec<usize>, size: usize, n: usize, m: usize) -> (assignment: Vec<i32>)
    requires
        is_match_map(p@, size as int),
        n <= size,
        m <= size,
        m <= MAX_COLS,
    ensures
        assignment.len() == n,
        forall|j: int, i: int|
            1 <= j <= size && 0 <= i < n && #[trigger] p[j] == i + 1
                ==> #[trigger] assignment[i] as int == projected_entry(j - 1, m as int),
{
    let mut assignment: Vec<i32> = vec![-1i32; n];
    let mut j: usize = 1;
    proof {
        assert(p.len() == size + 1);
    }
    while j <= size
        invariant
            1 <= j <= size + 1,
            size < usize::MAX,
            is_match_map(p@, size as int),
            n <= size,
            m <= size,
            m <= MAX_COLS,
            assignment.len() == n,
            forall|c: int, i: int|
                1 <= c <= size && 0 <= i < n && #[trigger] p[c] == i + 1
                    ==> #[trigger] assignment[i] as int == (if c < j && c <= m {
                    c - 1
                } else {
                    -1
                }),
        decreases size + 1 - j,
    {
        if p[j] > 0 && p[j] <= n && j <= m {
            let ghost before: Seq<i32> = assignment@;
            let column: i32 = (j - 1) as i32;
            assignment.set(p[j] - 1, column);
            proof {
                assert forall|c: int, i: int|
                    1 <= c <= size && 0 <= i < n && #[trigger] p[c] == i + 1 implies #[trigger] assignment[i] as int
                    == (if c < j + 1 && c <= m {
                    c - 1
                } else {
                    -1
                }) by {
                    if c != j {
                        assert(p[c] != p[j as int]);
                        assert(assignment[i] == before[i]);
                    }
                }
            }
        }
        j = j + 1;
    }
    assignment
}

} // verus!
