use hungarian::matrix::{
    build_padded_matrix, build_parallel, build_sequential, padded_row, padded_size,
    PARALLEL_THRESHOLD,
};

fn window(rows: usize, cols: usize) -> Vec<i64> {
    (0..rows * cols).map(|x| x as i64 * 3 - 50).collect()
}

fn expected_padding(cost: &[i64], rows: usize, cols: usize) -> Vec<i64> {
    let size = rows.max(cols);
    let mut out = Vec::with_capacity(size * size);
    for i in 0..size {
        for j in 0..size {
            out.push(if i < rows && j < cols { cost[i * cols + j] } else { 0 });
        }
    }
    out
}

#[test]
fn the_side_is_the_greater_dimension() {
    assert_eq!(padded_size(0, 0), 0);
    assert_eq!(padded_size(3, 5), 5);
    assert_eq!(padded_size(5, 3), 5);
    assert_eq!(padded_size(4, 4), 4);
}

#[test]
fn the_threshold_is_fifty() {
    assert_eq!(PARALLEL_THRESHOLD, 50);
}

#[test]
fn a_row_inside_the_window_is_copied_and_padded() {
    let cost = vec![1, 5, 2, 3, 1, 4];
    assert_eq!(padded_row(&cost, 2, 3, 3, 0), vec![1, 5, 2]);
    assert_eq!(padded_row(&cost, 2, 3, 3, 1), vec![3, 1, 4]);
    assert_eq!(padded_row(&cost, 2, 3, 3, 2), vec![0, 0, 0]);
    assert_eq!(padded_row(&cost, 3, 2, 3, 1), vec![2, 3, 0]);
}

#[test]
fn wide_matrix_gets_zero_rows() {
    let cost = vec![1, 5, 2, 3, 1, 4];
    assert_eq!(build_padded_matrix(&cost, 2, 3), vec![1, 5, 2, 3, 1, 4, 0, 0, 0]);
    assert_eq!(build_sequential(&cost, 2, 3, 3), vec![1, 5, 2, 3, 1, 4, 0, 0, 0]);
}

#[test]
fn tall_matrix_gets_zero_columns() {
    let cost = vec![1, 5, 2, 3, 1, 4];
    assert_eq!(build_padded_matrix(&cost, 3, 2), vec![1, 5, 0, 2, 3, 0, 1, 4, 0]);
    assert_eq!(build_parallel(&cost, 3, 2, 3), vec![1, 5, 0, 2, 3, 0, 1, 4, 0]);
}

#[test]
fn empty_matrix_pads_to_nothing() {
    assert_eq!(build_padded_matrix(&[], 0, 0), Vec::<i64>::new());
    assert_eq!(build_parallel(&[], 0, 0, 0), Vec::<i64>::new());
    assert_eq!(build_sequential(&[], 0, 0, 0), Vec::<i64>::new());
}

#[test]
fn a_matrix_without_columns_pads_to_zeros() {
    assert_eq!(build_padded_matrix(&[], 2, 0), vec![0, 0, 0, 0]);
    assert_eq!(build_parallel(&[], 0, 2, 2), vec![0, 0, 0, 0]);
}

#[test]
fn parallel_and_sequential_builds_are_identical() {
    for &(rows, cols) in &[(49usize, 49usize), (51, 51), (49, 51), (51, 49), (50, 50), (51, 7), (3, 64)] {
        let cost = window(rows, cols);
        let size = rows.max(cols);
        let expected = expected_padding(&cost, rows, cols);
        assert_eq!(build_sequential(&cost, rows, cols, size), expected);
        assert_eq!(build_parallel(&cost, rows, cols, size), expected);
        assert_eq!(build_padded_matrix(&cost, rows, cols), expected);
    }
}

#[test]
fn the_parallel_build_keeps_the_rows_in_order() {
    let size = 200usize;
    let cost: Vec<i64> = (0..(size * size) as i64).collect();
    assert_eq!(build_parallel(&cost, size, size, size), cost);
    assert_eq!(build_padded_matrix(&cost, size, size), cost);
}
