use connect_four::calc::{check, h_tup_seq, ldiag_tup_seq, rdiag_tup_seq, sequences, v_tup_seq, Playfield, HEIGHT, P1, P2, WIDTH};

#[test]
fn calc_test_macros() {
    assert_eq!(rdiag_tup_seq(2, 1), vec![(1, 0), (2, 1), (3, 2), (4, 3), (5, 4)]);
    assert_eq!(rdiag_tup_seq(5, 5), vec![(2, 2), (3, 3), (4, 4), (5, 5), (6, 6)]);
    assert_eq!(rdiag_tup_seq(4, 6), vec![(1, 3), (2, 4), (3, 5), (4, 6), (5, 7)]);
    assert_eq!(rdiag_tup_seq(2, 3), vec![(0, 1), (1, 2), (2, 3), (3, 4), (4, 5), (5, 6)]);

    assert_eq!(ldiag_tup_seq(4, 1), vec![(1, 4), (2, 3), (3, 2), (4, 1), (5, 0)]);
    assert_eq!(ldiag_tup_seq(1, 5), vec![(0, 6), (1, 5), (2, 4), (3, 3), (4, 2)]);

    assert_eq!(h_tup_seq(1, 5), vec![(1, 2), (1, 3), (1, 4), (1, 5), (1, 6), (1, 7)]);

    assert_eq!(v_tup_seq(2, 5), vec![(0, 5), (1, 5), (2, 5)]);
    assert_eq!(v_tup_seq(0, 0), vec![(0, 0)]);
}

#[test]
fn test_unsafe() {
    let mut num = 5;

    let r1 = &num;
    println!("r1 is: {}", *r1);
    let r2 = &mut num;
    println!("r2 is: {}", *r2);
}

#[test]
fn calc_test_macro() {
    assert_eq!(check(1, &vec![0, 0, 1, 1, 1, 0, 1, 1, -1, 0, 0, 0, 0]), 3);
    assert_eq!(check(1, &vec![0, 0, -1, 1, 1, 1, 1, 1, -1, 0, 0, 0, 0]), 4);
    assert_eq!(check(1, &vec![0, 0, -1, -1, 1, 0, 0, 0, 0]), 1);

    assert_eq!(check(-1, &vec![0, -1, -1, 0, 0]), 2);
    assert_eq!(check(-1, &vec![0, -1, -1, 1, 0]), 0);
    assert_eq!(check(1, &vec![1, 1, 0, 1, -1, 1, 0]), 3);

    assert_eq!(check(1, &vec![-1, -1, 1, 0]), 0);

    assert_eq!(check(1, &vec![0, 0, -1, -1, 1, 0, 0, 0, 0]), 1);
}

#[test]
fn calc_check_scores_every_window() {
    // the window that ends at the last value counts too
    assert_eq!(check(1, &vec![1, 1, 1, 1]), 4);
    assert_eq!(check(1, &vec![1, 1, 1, 1, 0]), 4);
    assert_eq!(check(1, &vec![0, 1, 1, 1, 1]), 4);
    assert_eq!(check(1, &vec![1, 0, 0, 0]), 1);
    // too short for a window
    assert_eq!(check(1, &vec![1, 1, 1]), 0);
    assert_eq!(check(1, &vec![]), 0);
}

#[test]
fn calc_lines_of_the_bottom_corner() {
    // the column line holds only the cell itself; the rising diagonal holds four
    assert_eq!(sequences(0, 0), vec![
        vec![(0, 0)],
        vec![(0, 0), (0, 1), (0, 2), (0, 3)],
        vec![(0, 0), (1, 1), (2, 2), (3, 3)],
    ]);
}

#[test]
fn playfield_starts_neutral() {
    let mut p = Playfield::new();
    assert_eq!(p.current_player(), P1);
    assert_eq!(p.evaluate(), 0);
    assert!(!p.is_finished());
    assert_eq!(p.actions(), vec![0, 1, 2, 3, 4, 5, 6, 7]);
}

#[test]
fn playfield_play_and_revert() {
    let mut p = Playfield::new();
    assert_eq!(p.play_col(2), Ok(()));
    p.swap_players();
    assert_eq!(p.current_player(), P2);
    // the first player's piece at (0, 2): one in the row, one on the rising diagonal
    assert_eq!(p.evaluate(), 2);
    for _ in 1..HEIGHT {
        assert_eq!(p.play_col(2), Ok(()));
        p.swap_players();
    }
    assert_eq!(p.col_height(2), HEIGHT);
    assert_eq!(p.actions(), vec![0, 1, 3, 4, 5, 6, 7]);
    assert!(!p.is_finished());
    assert_eq!(p.evaluate(), 2);
    p.revert(&2);
    assert_eq!(p.col_height(2), HEIGHT - 1);
    assert_eq!(p.actions(), vec![0, 1, 2, 3, 4, 5, 6, 7]);
    // no column counts as played last after a take-back
    assert_eq!(p.evaluate(), 0);
    assert!(!p.is_finished());
    p.swap_players();
    p.swap_players();
    assert_eq!(p.current_player(), P2);
}

#[test]
fn playfield_filled_is_finished() {
    let mut p = Playfield::new();
    for c in 0..WIDTH {
        for _ in 0..HEIGHT {
            p.apply(&c);
        }
    }
    assert_eq!(p.actions(), Vec::<usize>::new());
    assert!(p.is_finished());
    // the last piece tops a column of four of the first player
    assert_eq!(p.evaluate(), 127);
    assert_eq!(p.play_col(0), Err("Game already finished".to_string()));
}

#[test]
fn playfield_win_refuses_moves() {
    let mut p = Playfield::new();
    for col in [0usize, 1, 0, 1, 0, 1] {
        assert_eq!(p.play_col(col), Ok(()));
        p.swap_players();
    }
    assert!(!p.is_finished());
    assert_eq!(p.play_col(0), Ok(()));
    assert!(p.is_finished());
    assert_eq!(p.evaluate(), 127);
    assert_eq!(p.play_col(3), Err("Game already finished".to_string()));
    assert_eq!(p.col_height(3), 0);
}
