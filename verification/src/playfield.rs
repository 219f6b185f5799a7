//! The game behind the board the user plays on: cells that change state, the state of
//! the game, the columns played, and the notices that tell the board what changed.
use array2d::Array2D;
use std::collections::VecDeque;
use vstd::prelude::*;
use crate::engine;
use crate::engine::{EvaluationResult, Eval, HEIGHT, WIDTH, TOTAL_FIELDS};
use crate::grid;
use crate::lines;

verus! {

/// What a cell holds: nothing, or a piece of the first or the second player.
#[derive(Clone, Copy, Debug, PartialEq, Eq, Structural)]
pub enum CellState {
    Blank,
    P1,
    P2,
}

impl CellState {
    /// The number that stands for the state: `0`, `1` and `-1`.
    pub open spec fn code(self) -> i8 {
        match self {
            CellState::Blank => 0i8,
            CellState::P1 => 1i8,
            CellState::P2 => -1i8,
        }
    }

    /// The number that stands for the state: `0` for a blank cell, `1` and `-1` for the players.
    pub fn as_i8(self) -> (v: i8)
        ensures
            v == self.code(),
    {
        match self {
            CellState::Blank => 0,
            CellState::P1 => 1,
            CellState::P2 => -1,
        }
    }
}

/// The state of a game.
#[derive(Clone, Copy, Debug, PartialEq, Eq, Structural)]
pub enum GameState {
    Blank,
    Running,
    Finished,
    Calculating,
}

impl GameState {
    /// The number that stands for the state: `0` to `3` in the order of the variants.
    pub open spec fn code(self) -> i8 {
        match self {
            GameState::Blank => 0i8,
            GameState::Running => 1i8,
            GameState::Finished => 2i8,
            GameState::Calculating => 3i8,
        }
    }

    /// The number that stands for the state: `0` to `3` in the order of the variants.
    pub fn as_i8(self) -> (v: i8)
        ensures
            v == self.code(),
    {
        match self {
            GameState::Blank => 0,
            GameState::Running => 1,
            GameState::Finished => 2,
            GameState::Calculating => 3,
        }
    }
}

/// A notice to the board: a cell changed, or the state of the game changed.
#[derive(Debug, PartialEq, Eq)]
pub enum Update {
    Cell { row: u8, col: u8, state: i8, winning: bool },
    State { state: i8, winner: Option<i8> },
}

/// A cell of the board: where it is, what it holds, and whether it is part of a winning line.
#[derive(Clone, Copy, Debug, PartialEq, Eq)]
pub struct Cell {
    pub row: usize,
    pub col: usize,
    pub state: CellState,
    pub winning: bool,
}

/// The notice that tells the board what a cell now looks like.
pub open spec fn cell_notice(cell: Cell) -> Update {
    Update::Cell { row: cell.row as u8, col: cell.col as u8, state: cell.state.code(), winning: cell.winning }
}

/// The message of the error that refuses to put a piece on another player's piece.
pub open spec fn already_set_message() -> Seq<char> {
    "Cell is already set"@
}

impl Cell {
    /// The notice that tells the board what this cell now looks like.
    pub fn notice(&self) -> (u: Update)
        ensures
            u == cell_notice(*self),
    {
        Update::Cell { row: self.row as u8, col: self.col as u8, state: self.state.as_i8(), winning: self.winning }
    }

    /// Empty the cell and clear its winning mark, and tell the board.
    pub fn reset(&mut self, updates: &mut Vec<Update>)
        ensures
            *final(self) == (Cell { state: CellState::Blank, winning: false, ..*old(self) }),
            final(updates)@ == old(updates)@.push(cell_notice(*final(self))),
    {
        self.state = CellState::Blank;
        self.winning = false;
        updates.push(self.notice());
    }

    /// Change what the cell holds. Putting the same state again changes nothing and gives
    /// `Ok(false)`; a piece can be taken away or put on a blank cell, which gives `Ok(true)`
    /// and tells the board; a piece cannot replace the other player's piece.
    pub fn set_state(&mut self, state: CellState, updates: &mut Vec<Update>) -> (r: Result<bool, String>)
        ensures
            old(self).state == state ==> r == Ok::<bool, String>(false) && *final(self) == *old(self)
                && final(updates)@ == old(updates)@,
            old(self).state != state && old(self).state != CellState::Blank && state != CellState::Blank ==> {
                &&& r matches Err(e) && e@ == already_set_message()
                &&& *final(self) == *old(self)
                &&& final(updates)@ == old(updates)@
            },
            old(self).state != state && (old(self).state == CellState::Blank || state == CellState::Blank) ==> {
                &&& r == Ok::<bool, String>(true)
                &&& *final(self) == (Cell { state, ..*old(self) })
                &&& final(updates)@ == old(updates)@.push(cell_notice(*final(self)))
            },
    {
        if state == self.state {
            return Ok(false);
        }
        let result = match self.state {
            CellState::P1 => match state {
                CellState::Blank => {
                    self.state = state;
                    Ok(true)
                },
                CellState::P2 => Err("Cell is already set".to_owned()),
                CellState::P1 => Ok(false),
            },
            CellState::P2 => match state {
                CellState::Blank => {
                    self.state = state;
                    Ok(true)
                },
                CellState::P1 => Err("Cell is already set".to_owned()),
                CellState::P2 => Ok(false),
            },
            CellState::Blank => match state {
                CellState::Blank => Ok(false),
                CellState::P1 | CellState::P2 => {
                    self.state = state;
                    Ok(true)
                },
            },
        };
        let changed = match result {
            Ok(changed) => changed,
            Err(e) => {
                return Err(e);
            },
        };
        updates.push(self.notice());
        Ok(changed)
    }
}

/// What a game holds: its cells, its state, the column heights, the player who moved
/// last, the search depth and the columns played, in order.
pub struct GameView {
    pub cells: Seq<Seq<Cell>>,
    pub columns: nat,
    pub state: GameState,
    pub heights: Seq<usize>,
    pub player: CellState,
    pub level: u8,
    pub history: Seq<usize>,
}

/// The board of numbers that the cells stand for.
pub open spec fn values_of(cells: Seq<Seq<Cell>>) -> Seq<Seq<i8>> {
    Seq::new(HEIGHT as nat, |r: int| Seq::new(WIDTH as nat, |c: int| cells[r][c].state.code()))
}

/// The cells of a new game: blank, not winning, each knowing where it is.
pub open spec fn fresh_cells() -> Seq<Seq<Cell>> {
    Seq::new(HEIGHT as nat, |r: int| Seq::new(WIDTH as nat, |c: int| Cell { row: r as usize, col: c as usize, state: CellState::Blank, winning: false }))
}

impl GameView {
    /// The cells form a board of the game's rows and columns and each knows where it is;
    /// no column is over-full and the cells above a column's height are blank; every column
    /// played is a column of the board.
    pub open spec fn wf(self) -> bool {
        &&& self.cells.len() == HEIGHT
        &&& self.columns == WIDTH
        &&& forall|r: int| 0 <= r < HEIGHT ==> (#[trigger] self.cells[r]).len() == WIDTH
        &&& forall|r: int, c: int| 0 <= r < HEIGHT && 0 <= c < WIDTH ==>
            (#[trigger] self.cells[r][c]).row == r && self.cells[r][c].col == c
        &&& self.heights.len() == WIDTH
        &&& forall|c: int| 0 <= c < WIDTH ==> #[trigger] self.heights[c] <= HEIGHT
        &&& forall|r: int, c: int| 0 <= c < WIDTH && self.heights[c] <= r < HEIGHT ==>
            (#[trigger] self.cells[r][c]).state == CellState::Blank
        &&& forall|i: int| 0 <= i < self.history.len() ==> #[trigger] self.history[i] < WIDTH
    }

    /// The evaluation can be made: no column was played, or the last one played holds a piece.
    pub open spec fn can_evaluate(self) -> bool {
        self.history.len() > 0 ==> engine::column_count(values_of(self.cells), self.history.last() as int, HEIGHT as int) >= 1
    }
}

/// The cells with `(row, col)` holding `state`.
pub open spec fn with_state(cells: Seq<Seq<Cell>>, row: int, col: int, state: CellState) -> Seq<Seq<Cell>> {
    cells.update(row, cells[row].update(col, Cell { state, ..cells[row][col] }))
}

/// The cells with those at the positions `marked` marked as winning.
pub open spec fn mark_winning(cells: Seq<Seq<Cell>>, marked: Seq<(usize, usize)>) -> Seq<Seq<Cell>> {
    Seq::new(cells.len(), |r: int| Seq::new(cells[r].len(), |c: int|
        if marked.contains((r as usize, c as usize)) { Cell { winning: true, ..cells[r][c] } } else { cells[r][c] }))
}

/// What playing a column does: the game after it, its result, and the notices to the board.
pub struct PlayOutcome {
    pub game: GameView,
    pub result: Result<GameState, Seq<char>>,
    pub notices: Seq<Update>,
}

/// Playing column `col` for `player`: refused once the game is over or while the engine
/// calculates; otherwise the game runs and `player` moves. A full column is refused. Else
/// the column grows and is recorded as played; a blank `player` leaves the cell unchanged,
/// which is refused. Else the piece lands on the column's height, the board is evaluated
/// after that column, the game ends where the evaluation says so, and the winning cells
/// are marked. The board hears of the new piece, then of the game's state and winner,
/// then of each winning cell.
pub open spec fn play_outcome(pre: GameView, col: int, player: CellState) -> PlayOutcome {
    match pre.state {
        GameState::Finished => PlayOutcome { game: pre, result: Err("Already finished"@), notices: Seq::empty() },
        GameState::Calculating => PlayOutcome { game: pre, result: Err("calculating"@), notices: Seq::empty() },
        _ => {
            let started = GameView { state: GameState::Running, player, ..pre };
            let h = pre.heights[col] as int;
            if h >= HEIGHT {
                PlayOutcome { game: started, result: Err("column already full"@), notices: Seq::empty() }
            } else {
                let stacked = GameView {
                    heights: pre.heights.update(col, (h + 1) as usize),
                    history: pre.history.push(col as usize),
                    ..started
                };
                place_outcome(stacked, h, col, player)
            }
        },
    }
}

/// Putting `player`'s piece on the blank cell `(h, col)` of a game whose column `col` has
/// already grown over it: a blank `player` leaves the cell unchanged, which is refused.
/// Else the board is evaluated after that column, the game ends where the evaluation says
/// so, and the winning cells are marked. The board hears of the new piece, then of the
/// game's state and winner, then of each winning cell.
pub open spec fn place_outcome(g: GameView, h: int, col: int, player: CellState) -> PlayOutcome {
    if player == CellState::Blank {
        PlayOutcome { game: g, result: Err("Cell not changed"@), notices: Seq::empty() }
    } else {
        let placed = with_state(g.cells, h, col, player);
        let rows = values_of(placed);
        let e = engine::action_eval(rows, col);
        let won = match engine::action_cells(rows, col) {
            Some(run) => run,
            None => Seq::empty(),
        };
        let state = if e.finished { GameState::Finished } else { GameState::Running };
        PlayOutcome {
            game: GameView { cells: mark_winning(placed, won), state, ..g },
            result: Ok(state),
            notices: seq![cell_notice(placed[h][col]), Update::State { state: state.code(), winner: e.winner }]
                + won.map_values(|p: (usize, usize)| cell_notice(Cell { winning: true, ..placed[p.0 as int][p.1 as int] })),
        }
    }
}

proof fn lemma_mark_nothing(cells: Seq<Seq<Cell>>)
    ensures
        mark_winning(cells, Seq::empty()) =~~= cells,
{
}

proof fn lemma_take_push_contains(won: Seq<(usize, usize)>, k: int, p: (usize, usize))
    requires
        0 <= k < won.len(),
        p != won[k],
    ensures
        won.take(k + 1).contains(p) == won.take(k).contains(p),
{
    let a = won.take(k + 1);
    let b = won.take(k);
    if a.contains(p) {
        let t = choose|t: int| 0 <= t < a.len() && #[trigger] a[t] == p;
        assert(t != k);
        assert(b[t] == p);
    }
    if b.contains(p) {
        let t = choose|t: int| 0 <= t < b.len() && #[trigger] b[t] == p;
        assert(a[t] == p);
    }
}

proof fn lemma_mark_one_more(cells: Seq<Seq<Cell>>, won: Seq<(usize, usize)>, k: int)
    requires
        0 <= k < won.len(),
        cells.len() == HEIGHT,
        forall|r: int| 0 <= r < HEIGHT ==> (#[trigger] cells[r]).len() == WIDTH,
        won[k].0 < HEIGHT,
        won[k].1 < WIDTH,
    ensures
        ({
            let (r, c) = won[k];
            let before = mark_winning(cells, won.take(k));
            mark_winning(cells, won.take(k + 1))
                == before.update(r as int, before[r as int].update(c as int, Cell { winning: true, ..before[r as int][c as int] }))
        }),
{
    let (r, c) = won[k];
    let before = mark_winning(cells, won.take(k));
    let after = mark_winning(cells, won.take(k + 1));
    let expected = before.update(r as int, before[r as int].update(c as int, Cell { winning: true, ..before[r as int][c as int] }));
    assert(won.take(k + 1)[k] == (r, c));
    assert(won.take(k + 1).contains((r, c)));
    assert forall|i: int| 0 <= i < cells.len() implies #[trigger] after[i] =~= expected[i] by {
        assert forall|j: int| 0 <= j < cells[i].len() implies after[i][j] == #[trigger] expected[i][j] by {
            if i == r && j == c {
            } else {
                lemma_take_push_contains(won, k, (i as usize, j as usize));
            }
        }
    }
    assert(after =~= expected);
}

/// A game as the user plays it against the engine.
pub struct Game {
    cells: Array2D<Cell>,
    state: GameState,
    col_heights: [usize; WIDTH],
    current_player: CellState,
    level: u8,
    move_history: VecDeque<usize>,
}

impl View for Game {
    type V = GameView;

    closed spec fn view(&self) -> GameView {
        GameView {
            cells: grid::cell_rows(self.cells),
            columns: grid::cell_columns(self.cells),
            state: self.state,
            heights: self.col_heights@,
            player: self.current_player,
            level: self.level,
            history: self.move_history@,
        }
    }
}

impl Game {
    /// A new game with blank cells, searched to depth `level`, with the first player to move.
    pub fn new(level: u8) -> (g: Game)
        ensures
            g@.wf(),
            g@.cells == fresh_cells(),
            g@.state == GameState::Blank,
            g@.heights == Seq::new(WIDTH as nat, |c: int| 0usize),
            g@.player == CellState::P1,
            g@.level == level,
            g@.history == Seq::<usize>::empty(),
    {
        let blank = Cell { row: 0, col: 0, state: CellState::Blank, winning: false };
        let mut cells = grid::cells_filled_with(blank, HEIGHT, WIDTH);
        let mut row: usize = 0;
        while row < HEIGHT
            invariant
                row <= HEIGHT,
                grid::cell_columns(cells) == WIDTH,
                grid::cell_rows(cells).len() == HEIGHT,
                forall|r: int| 0 <= r < HEIGHT ==> (#[trigger] grid::cell_rows(cells)[r]).len() == WIDTH,
                forall|r: int, c: int| 0 <= r < row && 0 <= c < WIDTH ==> #[trigger] grid::cell_rows(cells)[r][c] == fresh_cells()[r][c],
                forall|r: int, c: int| row <= r < HEIGHT && 0 <= c < WIDTH ==> #[trigger] grid::cell_rows(cells)[r][c] == blank,
            decreases HEIGHT - row,
        {
            let mut col: usize = 0;
            while col < WIDTH
                invariant
                    row < HEIGHT,
                    col <= WIDTH,
                    grid::cell_columns(cells) == WIDTH,
                    grid::cell_rows(cells).len() == HEIGHT,
                    forall|r: int| 0 <= r < HEIGHT ==> (#[trigger] grid::cell_rows(cells)[r]).len() == WIDTH,
                    forall|r: int, c: int| 0 <= r < row && 0 <= c < WIDTH ==> #[trigger] grid::cell_rows(cells)[r][c] == fresh_cells()[r][c],
                    forall|c: int| 0 <= c < col ==> #[trigger] grid::cell_rows(cells)[row as int][c] == fresh_cells()[row as int][c],
                    forall|c: int| col <= c < WIDTH ==> #[trigger] grid::cell_rows(cells)[row as int][c] == blank,
                    forall|r: int, c: int| row < r < HEIGHT && 0 <= c < WIDTH ==> #[trigger] grid::cell_rows(cells)[r][c] == blank,
                decreases WIDTH - col,
            {
                grid::cells_set(&mut cells, row, col, Cell { row, col, state: CellState::Blank, winning: false });
                col = col + 1;
            }
            row = row + 1;
        }
        let g = Game {
            cells,
            state: GameState::Blank,
            col_heights: [0; WIDTH],
            current_player: CellState::P1,
            level: level,
            move_history: VecDeque::with_capacity(TOTAL_FIELDS),
        };
        assert forall|r: int| 0 <= r < HEIGHT implies #[trigger] g@.cells[r] =~= fresh_cells()[r] by {}
        assert(g@.cells =~= fresh_cells());
        assert(g@.heights =~= Seq::new(WIDTH as nat, |c: int| 0usize));
        g
    }

    /// The board of numbers that the cells stand for: `0`, `1` and `-1`.
    pub fn map_values(&self) -> (values: Array2D<i8>)
        requires
            self@.wf(),
        ensures
            grid::board_rows(values) == values_of(self@.cells),
            grid::board_columns(values) == WIDTH,
    {
        let mut values = grid::board_filled_with(0, HEIGHT, WIDTH);
        let ghost target = values_of(self@.cells);
        let mut row: usize = 0;
        while row < HEIGHT
            invariant
                self@.wf(),
                target == values_of(self@.cells),
                row <= HEIGHT,
                grid::board_columns(values) == WIDTH,
                grid::board_rows(values).len() == HEIGHT,
                forall|r: int| 0 <= r < HEIGHT ==> (#[trigger] grid::board_rows(values)[r]).len() == WIDTH,
                forall|r: int, c: int| 0 <= r < row && 0 <= c < WIDTH ==> #[trigger] grid::board_rows(values)[r][c] == target[r][c],
            decreases HEIGHT - row,
        {
            let mut col: usize = 0;
            while col < WIDTH
                invariant
                    self@.wf(),
                    target == values_of(self@.cells),
                    row < HEIGHT,
                    col <= WIDTH,
                    grid::board_columns(values) == WIDTH,
                    grid::board_rows(values).len() == HEIGHT,
                    forall|r: int| 0 <= r < HEIGHT ==> (#[trigger] grid::board_rows(values)[r]).len() == WIDTH,
                    forall|r: int, c: int| 0 <= r < row && 0 <= c < WIDTH ==> #[trigger] grid::board_rows(values)[r][c] == target[r][c],
                    forall|c: int| 0 <= c < col ==> #[trigger] grid::board_rows(values)[row as int][c] == target[row as int][c],
                decreases WIDTH - col,
            {
                let cell = grid::cells_get(&self.cells, row, col);
                grid::board_set(&mut values, row, col, cell.state.as_i8());
                col = col + 1;
            }
            row = row + 1;
        }
        assert forall|r: int| 0 <= r < HEIGHT implies #[trigger] grid::board_rows(values)[r] =~= target[r] by {}
        assert(grid::board_rows(values) =~= target);
        values
    }

    /// The evaluation of the board after the last column played, with the cells that won
    /// it; a neutral, unfinished evaluation where no column was played.
    pub fn evaluate(&self) -> (res: EvaluationResult)
        requires
            self@.wf(),
            self@.can_evaluate(),
        ensures
            self@.history.len() == 0 ==> res.eval == (Eval { score: 0, finished: false, winner: None }) && res.winning_cells is None,
            self@.history.len() > 0 ==> {
                let rows = values_of(self@.cells);
                let col = self@.history.last() as int;
                &&& res.eval == engine::action_eval(rows, col)
                &&& match res.winning_cells {
                    Some(cells) => engine::action_cells(rows, col) == Some(cells@),
                    None => engine::action_cells(rows, col) is None,
                }
            },
    {
        let n = self.move_history.len();
        if n == 0 {
            EvaluationResult { eval: Eval { score: 0, finished: false, winner: None }, winning_cells: None }
        } else {
            let col = self.move_history[n - 1];
            let values = self.map_values();
            proof {
                let rows = values_of(self@.cells);
                assert(forall|r: int| 0 <= r < HEIGHT ==> (#[trigger] rows[r]).len() == WIDTH);
                engine::lemma_column_count_bound(rows, col as int, HEIGHT as int);
            }
            engine::evaluate_action((values, self.current_player.as_i8()), col)
        }
    }

    /// Mark the cells at the positions `winning` as winning, one after the other, telling
    /// the board of each.
    fn mark_winning_cells(&mut self, winning: &Vec<(usize, usize)>, updates: &mut Vec<Update>)
        requires
            lines::line_inside(winning@, HEIGHT as nat, WIDTH as nat),
            old(self)@.cells.len() == HEIGHT,
            old(self)@.columns == WIDTH,
            forall|r: int| 0 <= r < HEIGHT ==> (#[trigger] old(self)@.cells[r]).len() == WIDTH,
        ensures
            final(self)@ == (GameView { cells: mark_winning(old(self)@.cells, winning@), ..old(self)@ }),
            final(updates)@ == old(updates)@ + winning@.map_values(
                |p: (usize, usize)| cell_notice(Cell { winning: true, ..old(self)@.cells[p.0 as int][p.1 as int] }),
            ),
    {
        let ghost pre = self@;
        let ghost won = winning@;
        let ghost head = updates@;
        let ghost notices = won.map_values(|p: (usize, usize)| cell_notice(Cell { winning: true, ..pre.cells[p.0 as int][p.1 as int] }));
        proof {
            lemma_mark_nothing(pre.cells);
            assert(won.take(0) =~= Seq::<(usize, usize)>::empty());
            assert(notices.take(0) =~= Seq::<Update>::empty());
            assert(updates@ =~= head + notices.take(0));
        }
        let mut k: usize = 0;
        while k < winning.len()
            invariant
                won == winning@,
                lines::line_inside(won, HEIGHT as nat, WIDTH as nat),
                k <= won.len(),
                pre.cells.len() == HEIGHT,
                forall|r: int| 0 <= r < HEIGHT ==> (#[trigger] pre.cells[r]).len() == WIDTH,
                self@ == (GameView { cells: mark_winning(pre.cells, won.take(k as int)), ..pre }),
                grid::cell_columns(self.cells) == WIDTH,
                updates@ == head + notices.take(k as int),
                notices == won.map_values(|p: (usize, usize)| cell_notice(Cell { winning: true, ..pre.cells[p.0 as int][p.1 as int] })),
            decreases won.len() - k,
        {
            let (r, c) = winning[k];
            let mut cell = grid::cells_get(&self.cells, r, c);
            cell.winning = true;
            grid::cells_set(&mut self.cells, r, c, cell);
            updates.push(cell.notice());
            proof {
                lemma_mark_one_more(pre.cells, won, k as int);
                assert(notices.take(k + 1) =~= notices.take(k as int).push(notices[k as int]));
            }
            k = k + 1;
        }
        proof {
            assert(won.take(won.len() as int) =~= won);
            assert(notices.take(won.len() as int) =~= notices);
        }
    }

    /// Play column `col` for `player`, as `play_outcome` describes; the notices to the
    /// board are appended to `updates`.
    pub fn play_col(&mut self, col: usize, player: CellState, updates: &mut Vec<Update>) -> (r: Result<GameState, String>)
        requires
            old(self)@.wf(),
            (old(self)@.state == GameState::Blank || old(self)@.state == GameState::Running) ==> col < WIDTH,
        ensures
            ({
                let out = play_outcome(old(self)@, col as int, player);
                &&& final(self)@ == out.game
                &&& final(updates)@ == old(updates)@ + out.notices
                &&& match r {
                    Ok(s) => out.result == Ok::<GameState, Seq<char>>(s),
                    Err(e) => out.result == Err::<GameState, Seq<char>>(e@),
                }
            }),
            final(self)@.wf(),
    {
        let ghost pre = self@;
        let ghost base = updates@;
        match self.state {
            GameState::Blank => {
                self.state = GameState::Running;
            },
            GameState::Finished => {
                return Err("Already finished".to_owned());
            },
            GameState::Calculating => {
                return Err("calculating".to_owned());
            },
            GameState::Running => {},
        }
        self.current_player = player;
        let row = self.col_heights[col];
        if row >= HEIGHT {
            return Err("column already full".to_owned());
        }
        self.col_heights[col] = row + 1;
        self.move_history.push_back(col);
        self.place_piece(row, col, player, updates)
    }

    /// Put `player`'s piece on the blank cell `(row, col)`, whose column has already grown
    /// over it, as `place_outcome` describes.
    #[verifier::rlimit(30)]
    fn place_piece(&mut self, row: usize, col: usize, player: CellState, updates: &mut Vec<Update>) -> (r: Result<GameState, String>)
        requires
            old(self)@.wf(),
            row < HEIGHT,
            col < WIDTH,
            old(self)@.heights[col as int] == row + 1,
            old(self)@.cells[row as int][col as int].state == CellState::Blank,
            old(self)@.history.len() > 0,
            old(self)@.history.last() == col,
            old(self)@.state == GameState::Running,
        ensures
            ({
                let out = place_outcome(old(self)@, row as int, col as int, player);
                &&& final(self)@ == out.game
                &&& final(updates)@ == old(updates)@ + out.notices
                &&& match r {
                    Ok(s) => out.result == Ok::<GameState, Seq<char>>(s),
                    Err(e) => out.result == Err::<GameState, Seq<char>>(e@),
                }
            }),
            final(self)@.wf(),
    {
        let ghost pre = self@;
        let ghost base = updates@;
        let mut cell = grid::cells_get(&self.cells, row, col);        let changed = cell.set_state(player, updates);
        grid::cells_set(&mut self.cells, row, col, cell);
        match changed {
            Err(e) => {
                return Err(e);
            },
            Ok(false) => {
                proof {
                    assert(self@.cells[row as int] =~= pre.cells[row as int]);
                    assert(self@.cells =~= pre.cells);
                    assert(updates@ =~= base + Seq::<Update>::empty());
                }
                return Err("Cell not changed".to_owned());
            },
            Ok(true) => {},
        }
        let ghost placed = with_state(pre.cells, row as int, col as int, player);
        let ghost rows = values_of(placed);
        let ghost n1 = cell_notice(placed[row as int][col as int]);
        proof {
            assert(cell == placed[row as int][col as int]);
            assert(updates@ == base.push(n1));
            assert(self@.cells =~= placed);
            assert(rows[row as int][col as int] != 0);
            engine::lemma_column_count_positive(rows, col as int, HEIGHT as int, row as int);
            engine::lemma_column_count_bound(rows, col as int, HEIGHT as int);
            engine::lemma_action_cells(rows, col as int);
            assert(self@.history.last() == col);
        }
        let result = self.evaluate();
        if result.eval.finished {
            self.state = GameState::Finished;
        }
        updates.push(Update::State { state: self.state.as_i8(), winner: result.eval.winner });
        let ghost won: Seq<(usize, usize)> = match engine::action_cells(rows, col as int) {
            Some(run) => run,
            None => Seq::empty(),
        };
        let ghost head = updates@;
        let ghost out = place_outcome(pre, row as int, col as int, player);
        let ghost n2 = Update::State { state: self@.state.code(), winner: result.eval.winner };
        let ghost tail = won.map_values(|p: (usize, usize)| cell_notice(Cell { winning: true, ..placed[p.0 as int][p.1 as int] }));
        proof {
            assert(result.eval == engine::action_eval(rows, col as int));
            assert(head =~= base + seq![n1, n2]);
            assert(out.notices == seq![n1, n2] + tail);
        }
        match result.winning_cells {
            Some(winning_cells) => {
                self.mark_winning_cells(&winning_cells, updates);
            },
            None => {
                proof {
                    lemma_mark_nothing(placed);
                }
            },
        }
        proof {
            assert(updates@ == head + tail);
            assert(base + (seq![n1, n2] + tail) =~= (base + seq![n1, n2]) + tail);
            assert(updates@ =~= base + out.notices);
        }
        Ok(self.state)
    }

    /// Start a game afresh, searched to depth `level`: every column empty, every cell
    /// blank and not winning, the first player to move. The board hears of each cell,
    /// row by row, then of the new state. The columns played so far stay recorded.
    pub fn reset(&mut self, level: u8, updates: &mut Vec<Update>)
        requires
            old(self)@.wf(),
        ensures
            final(self)@ == (GameView {
                cells: fresh_cells(),
                state: GameState::Blank,
                heights: Seq::new(WIDTH as nat, |c: int| 0usize),
                player: CellState::P1,
                level,
                ..old(self)@
            }),
            final(updates)@ == old(updates)@ + reset_notices() + seq![Update::State { state: 0, winner: None }],
            final(self)@.wf(),
    {
        let ghost pre = self@;
        let ghost base = updates@;
        let mut i: usize = 0;
        while i < WIDTH
            invariant
                i <= WIDTH,
                self@ == (GameView { heights: self@.heights, ..pre }),
                self@.heights.len() == WIDTH,
                forall|c: int| 0 <= c < i ==> #[trigger] self@.heights[c] == 0,
                forall|c: int| i <= c < WIDTH ==> #[trigger] self@.heights[c] == pre.heights[c],
            decreases WIDTH - i,
        {
            self.col_heights[i] = 0;
            i = i + 1;
        }
        assert(self@.heights =~= Seq::new(WIDTH as nat, |c: int| 0usize));
        let ghost mid = self@;
        let ghost notices = reset_notices();
        let mut row: usize = 0;
        while row < HEIGHT
            invariant
                pre.wf(),
                self@ == (GameView { cells: self@.cells, ..mid }),
                mid == (GameView { heights: Seq::new(WIDTH as nat, |c: int| 0usize), ..pre }),
                row <= HEIGHT,
                grid::cell_columns(self.cells) == WIDTH,
                self@.cells.len() == HEIGHT,
                forall|r: int| 0 <= r < HEIGHT ==> (#[trigger] self@.cells[r]).len() == WIDTH,
                forall|r: int, c: int| 0 <= r < row && 0 <= c < WIDTH ==> #[trigger] self@.cells[r][c] == fresh_cells()[r][c],
                forall|r: int, c: int| row <= r < HEIGHT && 0 <= c < WIDTH ==> #[trigger] self@.cells[r][c] == pre.cells[r][c],
                updates@ == base + notices.take(row * WIDTH),
                notices == reset_notices(),
            decreases HEIGHT - row,
        {
            let mut col: usize = 0;
            while col < WIDTH
                invariant
                    pre.wf(),
                    self@ == (GameView { cells: self@.cells, ..mid }),
                    mid == (GameView { heights: Seq::new(WIDTH as nat, |c: int| 0usize), ..pre }),
                    row < HEIGHT,
                    col <= WIDTH,
                    grid::cell_columns(self.cells) == WIDTH,
                    self@.cells.len() == HEIGHT,
                    forall|r: int| 0 <= r < HEIGHT ==> (#[trigger] self@.cells[r]).len() == WIDTH,
                    forall|r: int, c: int| 0 <= r < row && 0 <= c < WIDTH ==> #[trigger] self@.cells[r][c] == fresh_cells()[r][c],
                    forall|c: int| 0 <= c < col ==> #[trigger] self@.cells[row as int][c] == fresh_cells()[row as int][c],
                    forall|c: int| col <= c < WIDTH ==> #[trigger] self@.cells[row as int][c] == pre.cells[row as int][c],
                    forall|r: int, c: int| row < r < HEIGHT && 0 <= c < WIDTH ==> #[trigger] self@.cells[r][c] == pre.cells[r][c],
                    updates@ == base + notices.take(row * WIDTH + col),
                    notices == reset_notices(),
                decreases WIDTH - col,
            {
                let mut cell = grid::cells_get(&self.cells, row, col);
                cell.reset(updates);
                grid::cells_set(&mut self.cells, row, col, cell);
                proof {
                    let n = row * WIDTH + col;
                    assert(notices[n] == cell_notice(fresh_cells()[row as int][col as int]));
                    assert(notices.take(n + 1) =~= notices.take(n).push(notices[n]));
                }
                col = col + 1;
            }
            row = row + 1;
        }
        self.state = GameState::Blank;
        self.current_player = CellState::P1;
        self.level = level;
        updates.push(Update::State { state: GameState::Blank.as_i8(), winner: None });
        proof {
            assert forall|r: int| 0 <= r < HEIGHT implies #[trigger] self@.cells[r] =~= fresh_cells()[r] by {}
            assert(self@.cells =~= fresh_cells());
            assert(notices.take(HEIGHT * WIDTH) =~= notices);
        }
    }

    /// Get ready for the engine to move: refused once the game is over or while the engine
    /// calculates; a game not yet started starts running.
    pub fn begin_auto_play(&mut self) -> (r: Result<(), String>)
        requires
            old(self)@.wf(),
        ensures
            old(self)@.state == GameState::Finished ==> (r matches Err(e) && e@ == "Already solved"@) && final(self)@ == old(self)@,
            old(self)@.state == GameState::Calculating ==> (r matches Err(e) && e@ == "calculating"@) && final(self)@ == old(self)@,
            old(self)@.state == GameState::Blank || old(self)@.state == GameState::Running ==>
                r is Ok && final(self)@ == (GameView { state: GameState::Running, ..old(self)@ }),
            final(self)@.wf(),
    {
        match self.state {
            GameState::Blank => {
                self.state = GameState::Running;
                Ok(())
            },
            GameState::Finished => Err("Already solved".to_owned()),
            GameState::Calculating => Err("calculating".to_owned()),
            GameState::Running => Ok(()),
        }
    }

    /// The depth the engine searches to.
    pub fn level(&self) -> (level: u8)
        ensures
            level == self@.level,
    {
        self.level
    }

    /// The state of the game.
    pub fn state(&self) -> (state: GameState)
        ensures
            state == self@.state,
    {
        self.state
    }
}

/// The notices of a reset: each cell, row by row, blank and not winning.
pub open spec fn reset_notices() -> Seq<Update> {
    Seq::new((HEIGHT * WIDTH) as nat, |i: int| cell_notice(fresh_cells()[i / WIDTH as int][i % WIDTH as int]))
}

/// A finished game refuses every move and stays as it was; so does a game in which the
/// engine calculates.
pub proof fn lemma_finished_refuses(pre: GameView, col: int, player: CellState)
    requires
        pre.state == GameState::Finished || pre.state == GameState::Calculating,
    ensures
        play_outcome(pre, col, player).game == pre,
        play_outcome(pre, col, player).result is Err,
        play_outcome(pre, col, player).notices.len() == 0,
{
}

/// A move that completes four in a row ends the game, won by the mover, and marks four
/// cells holding the mover's piece as winning: where the column played holds pieces in all
/// its cells below the new one, and the new piece and three more in a straight line with
/// it hold the mover's piece.
pub proof fn lemma_four_in_a_row_ends_game(pre: GameView, col: int, player: CellState, dir: int, k: int)
    requires
        pre.wf(),
        0 <= col < WIDTH,
        pre.state == GameState::Blank || pre.state == GameState::Running,
        pre.heights[col] < HEIGHT,
        player != CellState::Blank,
        forall|r: int| 0 <= r < pre.heights[col] ==> (#[trigger] pre.cells[r][col]).state != CellState::Blank,
        engine::four_in_a_row(values_of(with_state(pre.cells, pre.heights[col] as int, col, player)), pre.heights[col] as int, col, dir, k),
    ensures
        ({
            let out = play_outcome(pre, col, player);
            let h = pre.heights[col] as int;
            let placed = with_state(pre.cells, h, col, player);
            let rows = values_of(placed);
            &&& out.game.state == GameState::Finished
            &&& out.result == Ok::<GameState, Seq<char>>(GameState::Finished)
            &&& out.notices[1] == Update::State { state: GameState::Finished.code(), winner: Some(player.code()) }
            &&& engine::action_cells(rows, col) matches Some(run) && {
                &&& run.len() == 4
                &&& forall|t: int| 0 <= t < 4 ==> #[trigger] out.game.cells[run[t].0 as int][run[t].1 as int].winning
                &&& forall|t: int| 0 <= t < 4 ==> #[trigger] out.game.cells[run[t].0 as int][run[t].1 as int].state == player
            }
        }),
{
    let h = pre.heights[col] as int;
    let placed = with_state(pre.cells, h, col, player);
    let rows = values_of(placed);
    assert forall|r: int| 0 <= r < h + 1 implies #[trigger] rows[r][col] != 0 by {
        if r < h {
            assert(placed[r][col] == pre.cells[r][col]);
        }
    }
    assert forall|r: int| h + 1 <= r < HEIGHT implies #[trigger] rows[r][col] == 0 by {
        assert(placed[r][col] == pre.cells[r][col]);
    }
    engine::lemma_column_count_stacked(rows, col, h + 1, HEIGHT as int);
    assert(engine::action_row(rows, col) == h);
    assert(rows[h][col] == player.code());
    engine::lemma_four_in_a_row_wins(rows, engine::sum_heights(engine::board_heights(rows), WIDTH as int) as int, h, col, dir, k);
    engine::lemma_action_cells(rows, col);
    engine::lemma_win_has_line(rows, h, col);
    assert(engine::action_cells(rows, col) is Some);
    let out = play_outcome(pre, col, player);
    let run = engine::action_cells(rows, col).unwrap();
    assert forall|t: int| 0 <= t < 4 implies #[trigger] out.game.cells[run[t].0 as int][run[t].1 as int].winning by {
        assert(run[t] == run[t]);
        assert(run.contains(run[t])) by {
            assert(0 <= t < run.len() && run[t] == run[t]);
        }
    }
    assert forall|t: int| 0 <= t < 4 implies #[trigger] out.game.cells[run[t].0 as int][run[t].1 as int].state == player by {
        let (r, c) = run[t];
        assert(rows[r as int][c as int] == player.code());
        assert(placed[r as int][c as int].state.code() == player.code());
    }
}


/// A move that is played ends the game exactly when the engine's evaluation of the board
/// after that column says it is over, which is when the move won it or the board is full;
/// otherwise the game runs on. Either way the move succeeds with the game's new state.
pub proof fn lemma_placed_move_ends_game_iff(pre: GameView, col: int, player: CellState)
    requires
        pre.wf(),
        0 <= col < WIDTH,
        pre.state == GameState::Blank || pre.state == GameState::Running,
        pre.heights[col] < HEIGHT,
        player != CellState::Blank,
    ensures
        ({
            let out = play_outcome(pre, col, player);
            let rows = values_of(with_state(pre.cells, pre.heights[col] as int, col, player));
            let e = engine::action_eval(rows, col);
            &&& out.result == Ok::<GameState, Seq<char>>(out.game.state)
            &&& (out.game.state == GameState::Finished <==> e.finished)
            &&& (out.game.state == GameState::Finished <==> (e.winner is Some
                || forall|r: int, c: int| 0 <= r < HEIGHT && 0 <= c < WIDTH ==> #[trigger] rows[r][c] != 0))
            &&& (out.game.state == GameState::Finished || out.game.state == GameState::Running)
            &&& out.notices[1] == Update::State { state: out.game.state.code(), winner: e.winner }
        }),
{
    let rows = values_of(with_state(pre.cells, pre.heights[col] as int, col, player));
    engine::lemma_action_eval_finished(rows, col);
}

/// A move onto the last empty cell of the board ends the game, drawn or won: the move
/// succeeds with the game finished.
pub proof fn lemma_last_cell_ends_game(pre: GameView, col: int, player: CellState)
    requires
        pre.wf(),
        0 <= col < WIDTH,
        pre.state == GameState::Blank || pre.state == GameState::Running,
        pre.heights[col] < HEIGHT,
        player != CellState::Blank,
        forall|r: int, c: int| 0 <= r < HEIGHT && 0 <= c < WIDTH && (r, c) != (pre.heights[col] as int, col)
            ==> (#[trigger] pre.cells[r][c]).state != CellState::Blank,
    ensures
        play_outcome(pre, col, player).result == Ok::<GameState, Seq<char>>(GameState::Finished),
        play_outcome(pre, col, player).game.state == GameState::Finished,
{
    let h = pre.heights[col] as int;
    let placed = with_state(pre.cells, h, col, player);
    let rows = values_of(placed);
    assert forall|r: int, c: int| 0 <= r < HEIGHT && 0 <= c < WIDTH implies #[trigger] rows[r][c] != 0 by {
        if (r, c) != (h, col) {
            assert(placed[r][c] == pre.cells[r][c]);
        }
    }
    lemma_placed_move_ends_game_iff(pre, col, player);
}


/// On a board whose columns hold their pieces from the bottom up, a move ends the game
/// exactly when the new piece and three more in a straight line with it hold the mover's
/// piece, or when it fills the last empty cell of the board.
pub proof fn lemma_move_ends_game_iff_four_or_full(pre: GameView, col: int, player: CellState)
    requires
        pre.wf(),
        0 <= col < WIDTH,
        pre.state == GameState::Blank || pre.state == GameState::Running,
        pre.heights[col] < HEIGHT,
        player != CellState::Blank,
        forall|r: int| 0 <= r < pre.heights[col] ==> (#[trigger] pre.cells[r][col]).state != CellState::Blank,
    ensures
        ({
            let h = pre.heights[col] as int;
            let rows = values_of(with_state(pre.cells, h, col, player));
            let out = play_outcome(pre, col, player);
            &&& out.result == Ok::<GameState, Seq<char>>(out.game.state)
            &&& (out.game.state == GameState::Finished <==> (
                (exists|dir: int, k: int| engine::four_in_a_row(rows, h, col, dir, k))
                || forall|r: int, c: int| 0 <= r < HEIGHT && 0 <= c < WIDTH ==> #[trigger] rows[r][c] != 0))
        }),
{
    let h = pre.heights[col] as int;
    let placed = with_state(pre.cells, h, col, player);
    let rows = values_of(placed);
    assert forall|r: int| 0 <= r < h + 1 implies #[trigger] rows[r][col] != 0 by {
        if r < h {
            assert(placed[r][col] == pre.cells[r][col]);
        }
    }
    assert forall|r: int| h + 1 <= r < HEIGHT implies #[trigger] rows[r][col] == 0 by {
        assert(placed[r][col] == pre.cells[r][col]);
    }
    engine::lemma_column_count_stacked(rows, col, h + 1, HEIGHT as int);
    assert(engine::action_row(rows, col) == h);
    assert(rows[h][col] != 0);
    engine::lemma_action_finished_iff(rows, col);
    lemma_placed_move_ends_game_iff(pre, col, player);
}

} // verus!
