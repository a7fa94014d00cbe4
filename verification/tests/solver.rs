use hungarian::projector::{project_assignment, MAX_COLS};
use hungarian::solver::{scan_row, solve_assignment, UNREACHED};

fn matched_total(cost: &[i64], size: usize, p: &[usize]) -> i64 {
    (1..=size).map(|j| cost[(p[j] - 1) * size + (j - 1)]).sum()
}

#[test]
fn match_map_holds_every_row_once() {
    let cost = vec![1, 2, 3, 4, 5, 6, 7, 8, 9];
    let p = solve_assignment(&cost, 3);
    assert_eq!(p.len(), 4);
    let mut rows: Vec<usize> = p[1..].to_vec();
    rows.sort();
    assert_eq!(rows, vec![1, 2, 3]);
    assert_eq!(matched_total(&cost, 3, &p), 15);
}

#[test]
fn match_map_of_a_unique_optimum() {
    // Rows 1, 2, 3 are cheapest in columns 2, 3, 1.
    let cost = vec![9, 1, 9, 9, 9, 1, 1, 9, 9];
    let p = solve_assignment(&cost, 3);
    assert_eq!(p[1..], [3, 1, 2]);
}

#[test]
fn match_map_of_the_empty_problem() {
    let p = solve_assignment(&[], 0);
    assert_eq!(p.len(), 1);
}

#[test]
fn scan_lowers_the_minima_and_picks_the_first_least() {
    // Row 1 of [[4, 2, 2], [0, 0, 0], [0, 0, 0]] with potentials u1 = 1, v = 0.
    let cost = vec![4, 2, 2, 0, 0, 0, 0, 0, 0];
    let u = vec![0i128, 1, 0, 0];
    let v = vec![0i128, 0, 0, 0];
    let used = vec![true, false, false, false];
    let mut minv = vec![UNREACHED, UNREACHED, 0, UNREACHED];
    let mut way = vec![0usize, 7, 7, 7];
    let best = scan_row(&cost, 3, 1, 0, &u, &v, &used, &mut minv, &mut way);
    assert_eq!(minv, vec![UNREACHED, 3, 0, 1]);
    assert_eq!(way, vec![0, 0, 7, 0]);
    assert_eq!(best, (0, 2));
}

#[test]
fn scan_skips_visited_columns() {
    let cost = vec![5, 6, 7, 8];
    let u = vec![0i128, 0, 2];
    let v = vec![0i128, -1, 0];
    let used = vec![true, true, false];
    let mut minv = vec![UNREACHED, 3, 9];
    let mut way = vec![0usize, 0, 0];
    let best = scan_row(&cost, 2, 2, 1, &u, &v, &used, &mut minv, &mut way);
    assert_eq!(minv, vec![UNREACHED, 3, 6]);
    assert_eq!(way, vec![0, 0, 1]);
    assert_eq!(best, (6, 2));
}

#[test]
fn scan_without_unvisited_columns_finds_nothing() {
    let cost = vec![5];
    let u = vec![0i128, 0];
    let v = vec![0i128, 0];
    let used = vec![true, true];
    let mut minv = vec![UNREACHED, 4];
    let mut way = vec![0usize, 0];
    let best = scan_row(&cost, 1, 1, 1, &u, &v, &used, &mut minv, &mut way);
    assert_eq!(best, (UNREACHED, 0));
    assert_eq!(minv, vec![UNREACHED, 4]);
}

#[test]
fn projection_inverts_the_match_map() {
    // Columns 1, 2, 3 hold rows 2, 3, 1.
    let p = vec![0usize, 2, 3, 1];
    assert_eq!(project_assignment(&p, 3, 3, 3), vec![2, 0, 1]);
}

#[test]
fn projection_marks_padding_columns() {
    let p = vec![0usize, 2, 3, 1];
    // Two columns: row 1 sits in column 3, which is padding.
    assert_eq!(project_assignment(&p, 3, 3, 2), vec![-1, 0, 1]);
    // Two rows: row 3 is dropped.
    assert_eq!(project_assignment(&p, 3, 2, 3), vec![2, 0]);
    assert_eq!(project_assignment(&p, 3, 0, 3), Vec::<i32>::new());
    assert_eq!(project_assignment(&p, 3, 3, 0), vec![-1, -1, -1]);
}

#[test]
fn the_result_can_name_two_to_the_thirty_first_columns() {
    assert_eq!(MAX_COLS, 2147483648);
}
