use array2d::Array2D;
use connect_four::engine::{
    check, evaluate_action, fits_game, h_tup_seq, ldiag_tup_seq, rdiag_tup_seq, sequences, v_tup_seq, ConnectFour,
    Eval, HEIGHT, P1, P2, WIDTH,
};

#[test]
fn engine_test_macros() {
    assert_eq!(rdiag_tup_seq(2, 1), vec![(1, 0), (2, 1), (3, 2), (4, 3), (5, 4)]);
    assert_eq!(rdiag_tup_seq(4, 4), vec![(1, 1), (2, 2), (3, 3), (4, 4), (5, 5)]);
    assert_eq!(rdiag_tup_seq(4, 6), vec![(1, 3), (2, 4), (3, 5), (4, 6)]);
    assert_eq!(rdiag_tup_seq(2, 3), vec![(0, 1), (1, 2), (2, 3), (3, 4), (4, 5), (5, 6)]);

    assert_eq!(ldiag_tup_seq(4, 1), vec![(1, 4), (2, 3), (3, 2), (4, 1), (5, 0)]);
    assert_eq!(ldiag_tup_seq(1, 5), vec![(0, 6), (1, 5), (2, 4), (3, 3), (4, 2)]);

    assert_eq!(h_tup_seq(1, 5), vec![(1, 2), (1, 3), (1, 4), (1, 5), (1, 6)]);

    assert_eq!(v_tup_seq(2, 5), vec![(0, 5), (1, 5), (2, 5), (3, 5), (4, 5), (5, 5)]);
    assert_eq!(v_tup_seq(0, 0), vec![(0, 0), (1, 0), (2, 0), (3, 0)]);
}

#[test]
fn engine_test_macro() {
    assert_eq!(check(1, &vec![0i8, 0, 1, 1, 1, 0, 1, 1, -1, 0, 0, 0, 0]), 3);
    assert_eq!(check(1, &vec![0i8, 0, -1, 1, 1, 1, 1, 1, -1, 0, 0, 0, 0]), 4);
    assert_eq!(check(1, &vec![0i8, 0, -1, -1, 1, 0, 0, 0, 0]), 1);
    assert_eq!(check(-1, &vec![0i8, -1, -1, 0, 0]), 2);
    assert_eq!(check(-1, &vec![0i8, -1, -1, 1, 0]), 0);
    assert_eq!(check(1, &vec![1i8, 1, 0, 1, -1, 1, 0]), 3);
    assert_eq!(check(1, &vec![1i8, 0, 0, 0]), 1);
    assert_eq!(check(1, &vec![-1i8, -1, 1, 0]), 0);
    assert_eq!(check(1, &vec![0i8, 0, -1, -1, 1, 0, 0, 0, 0]), 1);
}

#[test]
fn test_2() {
    let mut p = ConnectFour::new(None, P1);
    let mut play_col = |col: usize| {
        p.apply(&col);
        p.swap_players();
        p.evaluate()
    };

    assert_eq!(play_col(0), 1);
    assert_eq!(play_col(0), -1);
    assert_eq!(play_col(1), 2);
    assert_eq!(play_col(3), -1);
    assert_eq!(play_col(4), 1);
    assert_eq!(play_col(0), -2);
    assert_eq!(play_col(3), 2);
    assert_eq!(play_col(0), -4);
    assert_eq!(play_col(0), 2);
    assert_eq!(play_col(4), -2);
    assert_eq!(play_col(4), 2);
    assert_eq!(play_col(5), -2);
}

#[test]
fn test_col_height() {
    let mut p = ConnectFour::new(None, P1);
    let mut play_col = |p: &mut ConnectFour, col: usize| {
        p.apply(&col);
        p.swap_players();
        p.evaluate();
        p.col_height(col)
    };

    assert_eq!(play_col(&mut p, 0), 1);
    assert_eq!(play_col(&mut p, 0), 2);
    assert_eq!(play_col(&mut p, 1), 1);
    assert_eq!(play_col(&mut p, 3), 1);
    assert_eq!(play_col(&mut p, 4), 1);
    assert_eq!(play_col(&mut p, 0), 3);
    assert_eq!(play_col(&mut p, 3), 2);
    assert_eq!(play_col(&mut p, 0), 4);
    assert_eq!(play_col(&mut p, 0), 5);
    assert_eq!(play_col(&mut p, 4), 2);
    assert_eq!(play_col(&mut p, 4), 3);
    assert_eq!(play_col(&mut p, 5), 1);

    let revert_col = |p: &mut ConnectFour, col: usize| {
        p.revert(&col);
        p.swap_players();
        p.evaluate();
        p.col_height(col)
    };
    assert_eq!(revert_col(&mut p, 0), 4);
    assert_eq!(revert_col(&mut p, 0), 3);
    assert_eq!(revert_col(&mut p, 1), 0);
    assert_eq!(revert_col(&mut p, 3), 1);
}

fn board(rows: Vec<Vec<i8>>) -> Array2D<i8> {
    Array2D::from_rows(&rows).unwrap()
}

#[test]
fn check_short_and_empty_lines() {
    assert_eq!(check(1, &vec![]), 0);
    assert_eq!(check(1, &vec![1i8, 1, 1]), 0);
    assert_eq!(check(1, &vec![1i8, 1, 1, 1]), 4);
    // the last window counts
    assert_eq!(check(1, &vec![0i8, 0, 1, 1, 1]), 3);
    // a blank player scores nothing
    assert_eq!(check(0, &vec![0i8, 0, 0, 0]), 0);
}

#[test]
fn lines_through_a_corner_and_the_centre() {
    assert_eq!(sequences(0, 0), vec![
        vec![(0, 0), (1, 0), (2, 0), (3, 0)],
        vec![(0, 0), (0, 1), (0, 2), (0, 3)],
        vec![(0, 0), (1, 1), (2, 2), (3, 3)],
    ]);
    assert_eq!(sequences(5, 6).len(), 3);
    assert_eq!(sequences(2, 3).len(), 4);
    assert_eq!(rdiag_tup_seq(0, 6), vec![]);
    assert_eq!(ldiag_tup_seq(0, 0), vec![]);
}

#[test]
fn new_counts_pieces_per_column() {
    let mut rows = vec![vec![0i8; WIDTH]; HEIGHT];
    rows[0][2] = 1;
    rows[1][2] = -1;
    rows[0][6] = 1;
    let mut p = ConnectFour::new(Some(board(rows)), P2);
    assert_eq!(p.col_height(2), 2);
    assert_eq!(p.col_height(6), 1);
    assert_eq!(p.col_height(0), 0);
    assert_eq!(p.current_player(), P2);
    // nothing played yet: a neutral evaluation
    assert_eq!(p.evaluate(), 0);
    assert!(!p.is_finished());
}

#[test]
fn actions_skip_full_columns() {
    let mut p = ConnectFour::new(None, P1);
    for _ in 0..HEIGHT {
        p.apply(&3);
        p.swap_players();
    }
    assert_eq!(p.actions(), vec![0, 1, 2, 4, 5, 6]);
    assert_eq!(ConnectFour::new(None, P1).actions(), vec![0, 1, 2, 3, 4, 5, 6]);
}

#[test]
fn revert_restores_heights_and_player() {
    let mut p = ConnectFour::new(None, P1);
    p.apply(&2);
    p.revert(&2);
    assert_eq!(p.col_height(2), 0);
    assert_eq!(p.current_player(), P1);
    assert_eq!(p.evaluate(), 0);
    p.swap_players();
    p.swap_players();
    assert_eq!(p.current_player(), P1);
}

#[test]
fn vertical_four_wins() {
    let mut p = ConnectFour::new(None, P1);
    for col in [0usize, 1, 0, 1, 0, 1] {
        p.apply(&col);
        p.swap_players();
        assert!(!p.is_finished());
    }
    p.apply(&0);
    assert_eq!(p.evaluate(), 127);
    assert!(p.is_finished());
}

#[test]
fn second_player_win_scores_negative() {
    let mut rows = vec![vec![0i8; WIDTH]; HEIGHT];
    for c in 1..5 {
        rows[0][c] = -1;
    }
    rows[1][1] = 1;
    let result = evaluate_action((board(rows), P1), 4);
    assert_eq!(result.eval, Eval { score: -127, finished: true, winner: Some(-1) });
    assert_eq!(result.winning_cells, Some(vec![(0, 1), (0, 2), (0, 3), (0, 4)]));
}

#[test]
fn evaluate_action_finds_diagonal_first() {
    // a rising diagonal of the first player through (3, 3), and a row of four too
    let mut rows = vec![vec![0i8; WIDTH]; HEIGHT];
    rows[0][0] = 1;
    rows[1][1] = 1;
    rows[2][2] = 1;
    rows[3][3] = 1;
    rows[0][3] = -1;
    rows[1][3] = -1;
    rows[2][3] = 1;
    rows[3][0] = 1;
    rows[3][1] = 1;
    rows[3][2] = 1;
    let result = evaluate_action((board(rows), P2), 3);
    assert_eq!(result.eval.winner, Some(1));
    assert_eq!(result.eval.score, 127);
    assert!(result.eval.finished);
    assert_eq!(result.winning_cells, Some(vec![(0, 0), (1, 1), (2, 2), (3, 3)]));
}

#[test]
fn evaluate_action_without_win() {
    let mut rows = vec![vec![0i8; WIDTH]; HEIGHT];
    rows[0][3] = 1;
    rows[0][4] = 1;
    let result = evaluate_action((board(rows), P2), 4);
    // column 4 scores 1, row 0 scores 2, the falling diagonal scores 1, the rising one is
    // too short: 4, less 2 for the cell counted three times
    assert_eq!(result.winning_cells, None);
    assert_eq!(result.eval.winner, None);
    assert!(!result.eval.finished);
    assert_eq!(result.eval.score, 2);
}

#[test]
fn full_board_is_finished() {
    // columns alternate in pairs so that no four line up
    let pattern = [1i8, 1, -1, -1, 1, 1, -1];
    let mut rows = vec![vec![0i8; WIDTH]; HEIGHT];
    for r in 0..HEIGHT {
        for c in 0..WIDTH {
            let flip = if (r / 2) % 2 == 0 { 1 } else { -1 };
            rows[r][c] = pattern[c] * flip;
        }
    }
    let result = evaluate_action((board(rows), P1), 6);
    assert_eq!(result.eval, Eval { score: 0, finished: true, winner: None });
}

#[test]
fn bigger_boards_fit() {
    assert!(fits_game(&Array2D::filled_with(0i8, HEIGHT, WIDTH)));
    assert!(fits_game(&Array2D::filled_with(0i8, HEIGHT + 2, WIDTH + 1)));
    assert!(!fits_game(&Array2D::filled_with(0i8, HEIGHT - 1, WIDTH)));
    assert!(!fits_game(&Array2D::filled_with(0i8, HEIGHT, WIDTH - 1)));
}

#[test]
fn full_board_read_in_is_finished() {
    let mut p = ConnectFour::new(Some(board(vec![vec![1i8; WIDTH]; HEIGHT])), P1);
    assert_eq!(p.actions(), Vec::<usize>::new());
    assert!(p.is_finished());
    // no column counts as played last: the score stays neutral
    assert_eq!(p.evaluate(), 0);
}
