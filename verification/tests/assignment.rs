use hungarian::assignment::{check_dimensions, hungarian_algorithm, hungarian_core, SolveError};

fn total_cost(cost: &[i64], cols: usize, assignment: &[i32]) -> i64 {
    let mut total = 0i64;
    for (row, &col) in assignment.iter().enumerate() {
        if col >= 0 {
            total += cost[row * cols + col as usize];
        }
    }
    total
}

fn padded(cost: &[i64], rows: usize, cols: usize, i: usize, j: usize) -> i64 {
    if i < rows && j < cols {
        cost[i * cols + j]
    } else {
        0
    }
}

fn search_minimum(
    cost: &[i64],
    rows: usize,
    cols: usize,
    size: usize,
    row: usize,
    taken: &mut Vec<bool>,
    so_far: i64,
    best: &mut Option<i64>,
) {
    if row == size {
        if best.map_or(true, |b| so_far < b) {
            *best = Some(so_far);
        }
        return;
    }
    for col in 0..size {
        if !taken[col] {
            taken[col] = true;
            search_minimum(
                cost,
                rows,
                cols,
                size,
                row + 1,
                taken,
                so_far + padded(cost, rows, cols, row, col),
                best,
            );
            taken[col] = false;
        }
    }
}

fn exhaustive_minimum(cost: &[i64], rows: usize, cols: usize) -> i64 {
    let size = rows.max(cols);
    let mut taken = vec![false; size];
    let mut best = None;
    search_minimum(cost, rows, cols, size, 0, &mut taken, 0, &mut best);
    best.unwrap_or(0)
}

fn sample_costs(seed: u64, len: usize, spread: i64) -> Vec<i64> {
    let mut state = seed;
    let mut out = Vec::with_capacity(len);
    for _ in 0..len {
        state = state
            .wrapping_mul(6364136223846793005)
            .wrapping_add(1442695040888963407);
        out.push(((state >> 33) as i64) % (2 * spread + 1) - spread);
    }
    out
}

fn assert_valid(assignment: &[i32], rows: usize, cols: usize) {
    assert_eq!(assignment.len(), rows);
    let mut seen = vec![false; cols];
    let mut assigned = 0usize;
    for &col in assignment {
        assert!(col >= -1 && (col as i64) < cols as i64);
        if col >= 0 {
            assert!(!seen[col as usize]);
            seen[col as usize] = true;
            assigned += 1;
        }
    }
    assert_eq!(assigned, rows.min(cols));
}

#[test]
fn test_hungarian_simple() {
    // Simple 3x3 cost matrix
    let cost = vec![1, 2, 3, 4, 5, 6, 7, 8, 9];

    let result = hungarian_algorithm(&cost, 3, 3).unwrap();

    // Each row should be assigned to a unique column
    assert_eq!(result.len(), 3);
    assert!(result.iter().all(|&x| x >= 0 && x < 3));

    // Check all assignments are unique
    let mut seen = vec![false; 3];
    for &col in &result {
        assert!(!seen[col as usize]);
        seen[col as usize] = true;
    }
}

#[test]
fn test_hungarian_rectangular() {
    // 2 rows, 3 columns - more jobs than workers
    let cost = vec![1, 5, 2, 3, 1, 4];

    let result = hungarian_algorithm(&cost, 2, 3).unwrap();

    assert_eq!(result.len(), 2);
    // Row 0 should get column 0 (cost 1) or column 2 (cost 2)
    // Row 1 should get column 1 (cost 1)
    assert!(result[0] >= 0 && result[0] < 3);
    assert!(result[1] >= 0 && result[1] < 3);
    assert_ne!(result[0], result[1]);
}

#[test]
fn square_three_by_three_costs_fifteen() {
    let cost = vec![1, 2, 3, 4, 5, 6, 7, 8, 9];
    let result = hungarian_algorithm(&cost, 3, 3).unwrap();
    assert_valid(&result, 3, 3);
    assert_eq!(total_cost(&cost, 3, &result), 15);
}

#[test]
fn two_by_three_has_one_optimum() {
    let cost = vec![1, 5, 2, 3, 1, 4];
    let result = hungarian_algorithm(&cost, 2, 3).unwrap();
    assert_eq!(result, vec![0, 1]);
    assert_eq!(total_cost(&cost, 3, &result), 2);
}

#[test]
fn square_result_is_a_permutation() {
    for size in 1..=7usize {
        let cost = sample_costs(11 + size as u64, size * size, 50);
        let result = hungarian_algorithm(&cost, size, size).unwrap();
        let mut sorted = result.clone();
        sorted.sort();
        let expected: Vec<i32> = (0..size as i32).collect();
        assert_eq!(sorted, expected);
    }
}

#[test]
fn total_is_the_exhaustive_minimum() {
    for rows in 0..=6usize {
        for cols in 0..=6usize {
            for seed in 0..4u64 {
                let cost = sample_costs(seed * 97 + (rows * 7 + cols) as u64, rows * cols, 20);
                let result = hungarian_algorithm(&cost, rows, cols).unwrap();
                assert_valid(&result, rows, cols);
                assert_eq!(
                    total_cost(&cost, cols, &result),
                    exhaustive_minimum(&cost, rows, cols)
                );
            }
        }
    }
}

#[test]
fn total_is_the_exhaustive_minimum_at_side_eight() {
    let cost = sample_costs(2024, 64, 1000);
    let result = hungarian_algorithm(&cost, 8, 8).unwrap();
    assert_valid(&result, 8, 8);
    assert_eq!(total_cost(&cost, 8, &result), exhaustive_minimum(&cost, 8, 8));
}

#[test]
fn negative_costs_are_minimised() {
    let cost = vec![-5, -1, -2, -9];
    let result = hungarian_algorithm(&cost, 2, 2).unwrap();
    assert_eq!(result, vec![0, 1]);
    assert_eq!(total_cost(&cost, 2, &result), -14);
}

#[test]
fn extreme_costs_do_not_overflow() {
    let cost = vec![i64::MAX, i64::MIN, i64::MIN, i64::MAX, i64::MAX, i64::MAX, i64::MIN, 0, i64::MAX];
    let result = hungarian_algorithm(&cost, 3, 3).unwrap();
    assert_valid(&result, 3, 3);
    let total: i128 = result
        .iter()
        .enumerate()
        .map(|(row, &col)| cost[row * 3 + col as usize] as i128)
        .sum();
    assert_eq!(total, i64::MIN as i128 + i64::MIN as i128 + i64::MAX as i128);
}

#[test]
fn fewer_rows_than_columns_assigns_every_row() {
    let cost = vec![4, 1, 3, 9, 2, 8, 5, 7];
    let result = hungarian_algorithm(&cost, 2, 4).unwrap();
    assert_eq!(result.len(), 2);
    assert!(result.iter().all(|&col| col >= 0 && col < 4));
    assert_eq!(result, vec![1, 0]);
}

#[test]
fn more_rows_than_columns_leaves_the_rest_unassigned() {
    let cost = vec![10, 20, 1, 2, 30, 40];
    let result = hungarian_algorithm(&cost, 3, 2).unwrap();
    assert_eq!(result.len(), 3);
    assert_eq!(result.iter().filter(|&&col| col >= 0).count(), 2);
    assert_eq!(result.iter().filter(|&&col| col == -1).count(), 1);
    assert_eq!(total_cost(&cost, 2, &result), 12);
}

#[test]
fn no_rows_gives_an_empty_result() {
    assert_eq!(hungarian_algorithm(&[], 0, 0), Ok(vec![]));
    assert_eq!(hungarian_algorithm(&[], 0, 5), Ok(vec![]));
}

#[test]
fn no_columns_leaves_every_row_unassigned() {
    assert_eq!(hungarian_algorithm(&[], 4, 0), Ok(vec![-1, -1, -1, -1]));
    assert_eq!(hungarian_algorithm(&[], 100_000, 0), Ok(vec![-1; 100_000]));
}

#[test]
fn single_cell() {
    assert_eq!(hungarian_algorithm(&[7], 1, 1), Ok(vec![0]));
}

#[test]
fn wrong_length_is_a_dimension_mismatch() {
    assert_eq!(
        hungarian_algorithm(&[1, 2, 3], 2, 2),
        Err(SolveError::DimensionMismatch)
    );
    assert_eq!(
        hungarian_algorithm(&[1, 2, 3, 4, 5], 2, 2),
        Err(SolveError::DimensionMismatch)
    );
    assert_eq!(
        hungarian_algorithm(&[], usize::MAX, 2),
        Err(SolveError::DimensionMismatch)
    );
    assert_eq!(hungarian_algorithm(&[1], 0, 0), Err(SolveError::DimensionMismatch));
}

#[test]
fn identity_is_found_above_the_parallel_threshold() {
    let size = 60usize;
    let mut cost = Vec::with_capacity(size * size);
    for i in 0..size as i64 {
        for j in 0..size as i64 {
            cost.push((i - j) * (i - j));
        }
    }
    let result = hungarian_algorithm(&cost, size, size).unwrap();
    let expected: Vec<i32> = (0..size as i32).collect();
    assert_eq!(result, expected);
}

#[test]
fn assignments_agree_on_both_sides_of_the_threshold() {
    for &size in &[49usize, 51usize] {
        let mut cost = Vec::with_capacity(size * size);
        for i in 0..size as i64 {
            for j in 0..size as i64 {
                let shifted = (j + size as i64 - 3) % size as i64;
                cost.push((i - shifted).abs() * 10);
            }
        }
        let result = hungarian_algorithm(&cost, size, size).unwrap();
        let expected: Vec<i32> = (0..size as i64)
            .map(|i| ((i + 3) % size as i64) as i32)
            .collect();
        assert_eq!(result, expected);
    }
}

#[test]
fn core_projects_the_square_solution() {
    // The padded form of [[1, 5, 2], [3, 1, 4]].
    let square = vec![1, 5, 2, 3, 1, 4, 0, 0, 0];
    assert_eq!(hungarian_core(&square, 3, 2, 3), vec![0, 1]);
    // The same square, read as three rows and two columns: the last row is
    // matched to the third column, which is none of the two.
    assert_eq!(hungarian_core(&square, 3, 3, 2), vec![0, 1, -1]);
}

#[test]
fn dimensions_are_checked_before_the_size() {
    assert_eq!(check_dimensions(6, 2, 3), Ok(()));
    assert_eq!(check_dimensions(0, 0, 7), Ok(()));
    assert_eq!(check_dimensions(0, usize::MAX, 0), Ok(()));
    assert_eq!(check_dimensions(5, 2, 3), Err(SolveError::DimensionMismatch));
    assert_eq!(check_dimensions(7, 2, 3), Err(SolveError::DimensionMismatch));
    assert_eq!(
        check_dimensions(usize::MAX, usize::MAX, usize::MAX),
        Err(SolveError::DimensionMismatch)
    );
}

#[test]
fn a_side_whose_square_cannot_be_addressed_is_too_large() {
    let side = (usize::MAX >> (usize::BITS / 2)) + 1;
    assert_eq!(check_dimensions(side, side, 1), Err(SolveError::TooLarge));
    assert_eq!(check_dimensions(side, 1, side), Err(SolveError::TooLarge));
    assert_eq!(check_dimensions(side - 1, side - 1, 1), Ok(()));
}

#[test]
fn a_column_that_the_result_cannot_name_is_too_large() {
    let most = 0x8000_0000usize;
    assert_eq!(check_dimensions(most, 1, most), Ok(()));
    assert_eq!(check_dimensions(most + 1, 1, most + 1), Err(SolveError::TooLarge));
    assert_eq!(check_dimensions(most + 1, most + 1, 1), Ok(()));
}
