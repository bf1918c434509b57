use binairo::propagate::{fill_full_rows, solve_deterministic, two_in_collumns, two_in_rows};
use binairo::ranker::{get_neighbours_solved, get_useful_spots};
use binairo::search::{commit, decide_cell, has_unknown_cell, solve_full, step_indeterministic, try_color};
use binairo::validator::{board_has_no_duplicate_rows_or_collumns, board_is_valid, is_solved};

fn solution4() -> Vec<Vec<i16>> {
    vec![
        vec![1, 0, 1, 0],
        vec![0, 1, 0, 1],
        vec![1, 1, 0, 0],
        vec![0, 0, 1, 1],
    ]
}

fn unknown(n: usize) -> Vec<Vec<i16>> {
    vec![vec![-1; n]; n]
}

fn agrees_with(partial: &Vec<Vec<i16>>, full: &Vec<Vec<i16>>) -> bool {
    for i in 0..partial.len() {
        for j in 0..partial.len() {
            if partial[i][j] != -1 && partial[i][j] != full[i][j] {
                return false;
            }
        }
    }
    true
}

#[test]
fn solved_grid_is_valid_and_solved() {
    assert!(board_is_valid(solution4()));
    assert!(is_solved(solution4()));
}

#[test]
fn mutation_with_run_of_three_is_rejected() {
    let mut b = solution4();
    b[2][2] = 1;
    assert!(!board_is_valid(b.clone()));
    assert!(!is_solved(b));
}

#[test]
fn mutation_with_imbalance_is_rejected() {
    let mut b = solution4();
    b[3][0] = 1;
    assert!(!board_is_valid(b.clone()));
    assert!(!is_solved(b));
}

#[test]
fn run_of_three_in_column_is_rejected() {
    let mut b = unknown(6);
    b[1][4] = 0;
    b[2][4] = 0;
    b[3][4] = 0;
    assert!(!board_is_valid(b));
}

#[test]
fn partial_grid_is_valid_but_not_solved() {
    let mut b = unknown(4);
    b[0][0] = 0;
    b[0][1] = 0;
    assert!(board_is_valid(b.clone()));
    assert!(!is_solved(b));
}

#[test]
fn equal_complete_rows_are_rejected() {
    let mut b = unknown(4);
    b[0] = vec![1, 0, 1, 0];
    b[2] = vec![1, 0, 1, 0];
    assert!(!board_has_no_duplicate_rows_or_collumns(b.clone()));
    assert!(!board_is_valid(b));
}

#[test]
fn equal_complete_columns_are_rejected() {
    let b = vec![
        vec![1, -1, 1, -1],
        vec![0, -1, 0, -1],
        vec![0, -1, 0, -1],
        vec![1, -1, 1, -1],
    ];
    assert!(!board_has_no_duplicate_rows_or_collumns(b.clone()));
    assert!(!board_is_valid(b));
}

#[test]
fn equal_partial_rows_are_not_duplicates() {
    let mut b = unknown(4);
    b[0] = vec![0, 1, -1, -1];
    b[1] = vec![0, 1, -1, -1];
    assert!(board_has_no_duplicate_rows_or_collumns(b.clone()));
    assert!(board_is_valid(b));
    assert!(board_is_valid(unknown(4)));
}

#[test]
fn empty_board_is_solved() {
    assert!(is_solved(Vec::new()));
}

#[test]
fn two_equal_then_unknown_becomes_other_color() {
    let mut b = unknown(4);
    b[0][0] = 0;
    b[0][1] = 0;
    let once = two_in_rows(b.clone());
    assert_eq!(once[0][2], 1);
    let r = solve_deterministic(b, 4);
    assert_eq!(r[0], vec![0, 0, 1, 1]);
}

#[test]
fn gap_and_leading_patterns_are_filled() {
    let mut b = unknown(6);
    b[0] = vec![1, -1, 1, -1, -1, -1];
    b[1] = vec![-1, 0, 0, -1, -1, -1];
    let r = two_in_rows(b);
    assert_eq!(r[0][1], 0);
    assert_eq!(r[1][0], 1);
    assert_eq!(r[1][3], 1);
}

#[test]
fn balance_rule_waits_for_half() {
    let mut b = unknown(6);
    b[0] = vec![0, 1, 0, 1, 0, 1];
    b[1] = vec![0, -1, 0, -1, -1, -1];
    b[2] = vec![1, -1, 1, -1, 1, -1];
    let r = fill_full_rows(b.clone(), 6);
    assert_eq!(r[0], b[0]);
    assert_eq!(r[1], b[1]);
    assert_eq!(r[2], vec![1, 0, 1, 0, 1, 0]);
    for i in 3..6 {
        assert_eq!(r[i], b[i]);
    }
}

#[test]
fn propagation_keeps_given_cells_and_is_idempotent() {
    let mut b = unknown(6);
    b[0][0] = 0;
    b[0][1] = 0;
    b[2][3] = 1;
    b[3][3] = 1;
    b[5][5] = 0;
    let r = solve_deterministic(b.clone(), 6);
    assert!(agrees_with(&b, &r));
    let r2 = solve_deterministic(r.clone(), 6);
    assert_eq!(r, r2);
}

#[test]
fn propagation_solves_forced_puzzle() {
    let mut b = solution4();
    b[0][0] = -1;
    b[1][1] = -1;
    b[2][3] = -1;
    b[3][2] = -1;
    assert_eq!(solve_deterministic(b.clone(), 4), solution4());
    assert_eq!(solve_full(b, 4), solution4());
}

#[test]
fn neighbours_are_counted() {
    let mut b = unknown(4);
    b[0][1] = 0;
    b[1][0] = 1;
    b[1][2] = 0;
    assert_eq!(get_neighbours_solved(&b, 0, 0), 2);
    assert_eq!(get_neighbours_solved(&b, 1, 1), 3);
    assert_eq!(get_neighbours_solved(&b, 3, 3), 0);
}

#[test]
fn ranking_lists_every_unknown_cell_best_first() {
    let mut b = unknown(4);
    b[0][0] = 0;
    let spots = get_useful_spots(&b, 4);
    assert_eq!(spots.len(), 15);
    assert_eq!(spots[0], (0, 1, 101));
    assert_eq!(spots[1], (1, 0, 101));
    assert_eq!(spots[2], (0, 2, 1));
    assert_eq!(spots[3], (0, 3, 1));
    assert_eq!(spots[4], (2, 0, 1));
    assert_eq!(spots[5], (3, 0, 1));
    assert_eq!(spots[6], (1, 1, 0));
    let mut seen = Vec::new();
    for s in &spots {
        assert_eq!(b[s.0][s.1], -1);
        assert!(!seen.contains(&(s.0, s.1)));
        seen.push((s.0, s.1));
    }
    for w in spots.windows(2) {
        assert!(w[0].2 >= w[1].2);
    }
}

#[test]
fn diagonal_seed_is_solved_or_left_valid() {
    let mut b = unknown(4);
    b[0][0] = 0;
    b[1][1] = 1;
    b[2][2] = 1;
    b[3][3] = 0;
    let r = solve_full(b.clone(), 4);
    assert!(agrees_with(&b, &r));
    assert!(board_is_valid(r.clone()));
    if is_solved(r.clone()) {
        for i in 0..4 {
            for j in 0..4 {
                assert!(r[i][j] == 0 || r[i][j] == 1);
            }
        }
    }
}

#[test]
fn search_commits_only_what_the_solution_has() {
    let full = vec![
        vec![0, 0, 1, 0, 1, 1],
        vec![0, 0, 1, 1, 0, 1],
        vec![1, 1, 0, 0, 1, 0],
        vec![0, 1, 0, 0, 1, 1],
        vec![1, 0, 1, 1, 0, 0],
        vec![1, 1, 0, 1, 0, 0],
    ];
    assert!(is_solved(full.clone()));
    let mut b = unknown(6);
    b[0][1] = 0;
    b[1][4] = 0;
    b[2][0] = 1;
    b[3][5] = 1;
    b[4][2] = 1;
    b[5][3] = 1;
    b[2][2] = 0;
    let step = step_indeterministic(solve_deterministic(b.clone(), 6), 6);
    assert!(agrees_with(&step, &full));
    let r = solve_full(b.clone(), 6);
    assert!(agrees_with(&b, &r));
    assert!(agrees_with(&r, &full));
}

#[test]
fn no_progress_returns_grid_unchanged() {
    let b = unknown(4);
    assert_eq!(step_indeterministic(b.clone(), 4), b);
    let r = solve_full(b.clone(), 4);
    assert_eq!(r, b);
    assert!(!is_solved(r));
}

#[test]
fn tentative_color_that_makes_three_fails() {
    let mut b = unknown(4);
    b[0][0] = 0;
    b[0][1] = 0;
    assert!(!try_color(&b, 4, 0, 2, 0));
    assert!(try_color(&b, 4, 0, 2, 1));
}

#[test]
fn commit_colors_and_propagates() {
    let mut b = unknown(4);
    b[0][0] = 0;
    let r = commit(b, 4, 0, 1, 0);
    assert_eq!(r[0], vec![0, 0, 1, 1]);
}

#[test]
fn unknown_cells_are_detected() {
    assert!(has_unknown_cell(&unknown(2)));
    assert!(!has_unknown_cell(&solution4()));
}

#[test]
fn one_row_pass_fills_only_the_forced_window() {
    let mut b = unknown(4);
    b[0][0] = 0;
    b[0][1] = 0;
    let r = two_in_rows(b);
    let mut expected = unknown(4);
    expected[0] = vec![0, 0, 1, -1];
    assert_eq!(r, expected);
}

#[test]
fn column_pass_fills_windows_top_to_bottom() {
    let mut b = unknown(4);
    b[1][2] = 1;
    b[2][2] = 1;
    let r = two_in_collumns(b);
    let mut expected = unknown(4);
    expected[0][2] = 0;
    expected[1][2] = 1;
    expected[2][2] = 1;
    expected[3][2] = 0;
    assert_eq!(r, expected);
}

#[test]
fn deciding_a_cell_commits_the_other_color() {
    let mut b = unknown(4);
    b[0][0] = 0;
    b[0][1] = 0;
    let r = decide_cell(&b, 4, 0, 2).unwrap();
    assert_eq!(r[0], vec![0, 0, 1, 1]);
    assert!(decide_cell(&unknown(4), 4, 1, 1).is_none());
}
