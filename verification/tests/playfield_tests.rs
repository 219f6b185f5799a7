use connect_four::playfield::{Cell, CellState, Game, GameState, Update};

#[test]
fn test_enum() {
    assert_eq!(CellState::P2.as_i8(), -1);
}

#[test]
fn enum_codes() {
    assert_eq!(CellState::Blank.as_i8(), 0);
    assert_eq!(CellState::P1.as_i8(), 1);
    assert_eq!(GameState::Blank.as_i8(), 0);
    assert_eq!(GameState::Running.as_i8(), 1);
    assert_eq!(GameState::Finished.as_i8(), 2);
    assert_eq!(GameState::Calculating.as_i8(), 3);
}

fn cell(state: CellState) -> Cell {
    Cell { row: 2, col: 3, state, winning: false }
}

#[test]
fn set_state_transitions() {
    let mut updates = Vec::new();

    let mut c = cell(CellState::Blank);
    assert_eq!(c.set_state(CellState::Blank, &mut updates), Ok(false));
    assert!(updates.is_empty());

    assert_eq!(c.set_state(CellState::P1, &mut updates), Ok(true));
    assert_eq!(c.state, CellState::P1);
    assert_eq!(updates, vec![Update::Cell { row: 2, col: 3, state: 1, winning: false }]);

    assert_eq!(c.set_state(CellState::P1, &mut updates), Ok(false));
    assert_eq!(c.set_state(CellState::P2, &mut updates), Err("Cell is already set".to_string()));
    assert_eq!(c.state, CellState::P1);
    assert_eq!(updates.len(), 1);

    assert_eq!(c.set_state(CellState::Blank, &mut updates), Ok(true));
    assert_eq!(c.state, CellState::Blank);

    let mut d = cell(CellState::P2);
    assert_eq!(d.set_state(CellState::P1, &mut updates), Err("Cell is already set".to_string()));
    assert_eq!(d.set_state(CellState::Blank, &mut updates), Ok(true));
    assert_eq!(updates.len(), 3);
}

#[test]
fn cell_reset_clears() {
    let mut updates = Vec::new();
    let mut c = Cell { row: 5, col: 6, state: CellState::P2, winning: true };
    c.reset(&mut updates);
    assert_eq!(c, Cell { row: 5, col: 6, state: CellState::Blank, winning: false });
    assert_eq!(updates, vec![Update::Cell { row: 5, col: 6, state: 0, winning: false }]);
}

#[test]
fn play_col_runs_the_game() {
    let mut g = Game::new(3);
    let mut updates = Vec::new();
    assert_eq!(g.state(), GameState::Blank);
    assert_eq!(g.play_col(3, CellState::P1, &mut updates), Ok(GameState::Running));
    assert_eq!(updates, vec![
        Update::Cell { row: 0, col: 3, state: 1, winning: false },
        Update::State { state: 1, winner: None },
    ]);
    let values = g.map_values();
    assert_eq!(values[(0, 3)], 1);
    assert_eq!(values[(1, 3)], 0);
    let result = g.evaluate();
    assert_eq!(result.eval.winner, None);
    assert_eq!(result.winning_cells, None);
}

#[test]
fn play_col_errors() {
    let mut g = Game::new(3);
    let mut updates = Vec::new();
    assert_eq!(g.play_col(0, CellState::Blank, &mut updates), Err("Cell not changed".to_string()));
    // the refused move still started the game and raised the column
    assert_eq!(g.state(), GameState::Running);
    for player in [CellState::P1, CellState::P2, CellState::P1, CellState::P2, CellState::P1] {
        assert_eq!(g.play_col(0, player, &mut updates), Ok(GameState::Running));
    }
    assert_eq!(g.play_col(0, CellState::P2, &mut updates), Err("column already full".to_string()));
}

#[test]
fn play_col_win_marks_cells() {
    let mut g = Game::new(3);
    let mut updates = Vec::new();
    for col in [0usize, 1, 2] {
        assert_eq!(g.play_col(col, CellState::P1, &mut updates), Ok(GameState::Running));
        assert_eq!(g.play_col(col, CellState::P2, &mut updates), Ok(GameState::Running));
    }
    updates.clear();
    assert_eq!(g.play_col(3, CellState::P1, &mut updates), Ok(GameState::Finished));
    assert_eq!(updates, vec![
        Update::Cell { row: 0, col: 3, state: 1, winning: false },
        Update::State { state: 2, winner: Some(1) },
        Update::Cell { row: 0, col: 0, state: 1, winning: true },
        Update::Cell { row: 0, col: 1, state: 1, winning: true },
        Update::Cell { row: 0, col: 2, state: 1, winning: true },
        Update::Cell { row: 0, col: 3, state: 1, winning: true },
    ]);
    assert_eq!(g.play_col(4, CellState::P2, &mut updates), Err("Already finished".to_string()));
    assert_eq!(g.begin_auto_play(), Err("Already solved".to_string()));
}

#[test]
fn reset_starts_afresh() {
    let mut g = Game::new(3);
    let mut updates = Vec::new();
    g.play_col(2, CellState::P1, &mut updates).unwrap();
    updates.clear();
    g.reset(5, &mut updates);
    assert_eq!(g.state(), GameState::Blank);
    assert_eq!(g.level(), 5);
    assert_eq!(updates.len(), 6 * 7 + 1);
    assert_eq!(updates[0], Update::Cell { row: 0, col: 0, state: 0, winning: false });
    assert_eq!(updates[9], Update::Cell { row: 1, col: 2, state: 0, winning: false });
    assert_eq!(updates[42], Update::State { state: 0, winner: None });
    assert_eq!(g.map_values()[(0, 2)], 0);
    assert_eq!(g.begin_auto_play(), Ok(()));
    assert_eq!(g.state(), GameState::Running);
}

#[test]
fn test_play_2() {
    let mut g = Game::new(8);
    let mut updates = Vec::new();
    let (x, o) = (CellState::P1, CellState::P2);
    g.play_col(2, x, &mut updates).unwrap();
    g.play_col(6, o, &mut updates).unwrap();
    g.play_col(3, x, &mut updates).unwrap();
    g.play_col(6, o, &mut updates).unwrap();
    g.play_col(6, x, &mut updates).unwrap();
    g.play_col(5, o, &mut updates).unwrap();
    g.play_col(1, x, &mut updates).unwrap();
    g.play_col(0, o, &mut updates).unwrap();

    g.play_col(4, x, &mut updates).unwrap();

    let result = g.evaluate();
    assert_eq!(result.eval.winner.unwrap(), x.as_i8());
}

#[test]
fn finished_game_refuses_any_column() {
    let mut g = Game::new(3);
    let mut updates = Vec::new();
    for col in [0usize, 1, 0, 1, 0, 1] {
        g.play_col(col, CellState::P1, &mut updates).unwrap();
    }
    assert_eq!(g.state(), GameState::Running);
    assert_eq!(g.play_col(0, CellState::P1, &mut updates), Ok(GameState::Finished));
    let before = updates.len();
    assert_eq!(g.play_col(99, CellState::P2, &mut updates), Err("Already finished".to_string()));
    assert_eq!(updates.len(), before);
}
