//! The first engine, on a board of seven rows and eight columns, with whole-number
//! scores: the lines through a cell, the score of a line and the playfield that a
//! search walks.
use array2d::Array2D;
use vstd::prelude::*;
use crate::grid;
use crate::engine;
use crate::lines;

verus! {

pub const WIDTH: usize = 8;
pub const HEIGHT: usize = 7;

pub const P1: i8 = 1;
pub const P2: i8 = -1;
pub const BLANK: i8 = 0;

/// The best score over the windows of four consecutive values: for each window,
/// zero where `-val` occurs in it, else how many of its values equal `val`.
pub fn check(val: i8, values: &Vec<i8>) -> (best: i8)
    requires
        values@.len() >= 4 ==> val != i8::MIN,
    ensures
        best == lines::best_window(val, values@, values@.len() - 3),
        0 <= best <= 4,
        forall|st: int| 0 <= st && st + 4 <= values@.len() && (forall|i: int| st <= i < st + 4 ==> values@[i] != -val)
            ==> best >= #[trigger] lines::count_equal(values@, val as int, st, st + 4),
        best == 0 || exists|st: int| 0 <= st && st + 4 <= values@.len()
            && (forall|i: int| st <= i < st + 4 ==> values@[i] != -val)
            && best == #[trigger] lines::count_equal(values@, val as int, st, st + 4),
{
    let mut best_score: i8 = 0;
    let len = values.len();
    // the windows `values[start..start + 4]`, for every `start + 4 <= len`
    let mut start: usize = 0;
    proof { lines::lemma_best_window_bound(val, values@, 0); }
    while start < len && len - start >= 4
        invariant
            len == values@.len(),
            len >= 3 ==> start <= len - 3,
            len < 3 ==> start == 0,
            len >= 4 ==> val != i8::MIN,
            best_score == lines::best_window(val, values@, start as int),
            best_score <= 4,
        decreases len - start,
    {
        let mut score: i8 = 0;
        let end = start + 4;
        let mut j = start;
        while j < end
            invariant_except_break
                end == start + 4,
                start + 4 <= values@.len(),
                start <= j <= start + 4,
                val != i8::MIN,
                !lines::holds_value(values@, -val, start as int, j as int),
                score == lines::count_equal(values@, val as int, start as int, j as int),
                0 <= score <= j - start,
            ensures
                score == lines::window_score(val, values@, start as int),
                0 <= score <= 4,
            decreases start + 4 - j,
        {
            let v = values[j];
            if v == -val {
                score = 0;
                break;
            }
            if v == val {
                score = score + 1;
            }
            j = j + 1;
        }
        if score > best_score {
            best_score = score;
        }
        start = start + 1;
    }
    proof {
        lines::lemma_best_window_bound(val, values@, values@.len() - 3);
        lines::lemma_best_window_clean(val, values@, values@.len() - 3);
    }
    best_score
}

/// The row through `(row, col)`: the columns at most three away on either side.
pub fn h_tup_seq(row: usize, col: usize) -> (cells: Vec<(usize, usize)>)
    requires
        col < WIDTH,
    ensures
        cells@ == lines::horizontal_line(row as int, col as int, WIDTH as int),
{
    lines::horizontal(row, col, WIDTH)
}

/// The cells below `(row, col)` in its column, at most three rows down, and the cell itself.
pub fn v_tup_seq(row: usize, col: usize) -> (cells: Vec<(usize, usize)>)
    requires
        row < HEIGHT,
    ensures
        cells@ == downward_line(row as int, col as int),
{
    let lo: usize = if row >= 3 { row - 3 } else { 0 };
    lines::column_cells(col, lo, row + 1)
}

/// The cells of the column through `(row, col)` from at most three rows below it up to it.
pub open spec fn downward_line(row: int, col: int) -> Seq<(usize, usize)> {
    lines::column_span(col, if row >= 3 { row - 3 } else { 0 }, row + 1)
}

/// The rising diagonal through `(row, col)`, or no cell where it holds fewer than four.
pub fn rdiag_tup_seq(row: usize, col: usize) -> (cells: Vec<(usize, usize)>)
    ensures
        cells@ == lines::rising_diagonal(row as int, col as int, WIDTH as int, HEIGHT as int),
{
    lines::rising(row, col, WIDTH, HEIGHT)
}

/// The falling diagonal through `(row, col)`, or no cell where it holds fewer than four.
pub fn ldiag_tup_seq(row: usize, col: usize) -> (cells: Vec<(usize, usize)>)
    requires
        col < WIDTH,
    ensures
        cells@ == lines::falling_diagonal(row as int, col as int, WIDTH as int, HEIGHT as int),
{
    lines::falling(row, col, WIDTH, HEIGHT)
}

/// The lines through `(row, col)`: the cells below it in its column, its row and the
/// diagonals that hold at least four cells.
pub open spec fn cell_lines(row: int, col: int) -> Seq<Seq<(usize, usize)>> {
    lines::lines_through(downward_line(row, col), row, col, WIDTH as int, HEIGHT as int)
}

/// The lines through `(row, col)` that a line of four can use, in the order column, row,
/// rising diagonal, falling diagonal, leaving out those without a cell.
pub fn sequences(row: usize, col: usize) -> (all: Vec<Vec<(usize, usize)>>)
    requires
        row < HEIGHT,
        col < WIDTH,
    ensures
        all@.len() == cell_lines(row as int, col as int).len(),
        forall|k: int| 0 <= k < all@.len() ==> (#[trigger] all@[k])@ == cell_lines(row as int, col as int)[k],
{
    lines::gather_lines(v_tup_seq(row, col), h_tup_seq(row, col), rdiag_tup_seq(row, col), ldiag_tup_seq(row, col))
}

/// The sum of the scores of the first `k` lines for the player `val`.
pub open spec fn sum_line_scores(rows: Seq<Seq<i8>>, val: i8, ls: Seq<Seq<(usize, usize)>>, k: int) -> int
    decreases k,
{
    if k <= 0 {
        0
    } else {
        sum_line_scores(rows, val, ls, k - 1)
            + lines::best_window(val, grid::values_on(rows, ls[k - 1]), ls[k - 1].len() - 3)
    }
}

/// Whether one of the lines is a full line of four for `val`.
pub open spec fn any_four(rows: Seq<Seq<i8>>, val: i8, ls: Seq<Seq<(usize, usize)>>) -> bool {
    exists|k: int| 0 <= k < ls.len() && lines::best_window(val, grid::values_on(rows, ls[k]), ls[k].len() - 3) > 3
}

/// Whether every column is full.
pub open spec fn all_full(heights: Seq<usize>) -> bool {
    forall|c: int| 0 <= c < WIDTH ==> #[trigger] heights[c] == HEIGHT
}

/// The outcome that the cell `(row, col)` gives, for its holder `val`: a line of four wins
/// with the largest score; otherwise the game is over once every column is full, and the
/// score is the sum of the line scores, for `val`.
pub open spec fn cell_outcome(rows: Seq<Seq<i8>>, heights: Seq<usize>, row: int, col: int) -> (bool, i8) {
    let val = rows[row][col];
    let ls = cell_lines(row, col);
    if any_four(rows, val, ls) {
        (true, (127 * val) as i8)
    } else {
        (all_full(heights), (sum_line_scores(rows, val, ls, ls.len() as int) * val) as i8)
    }
}

/// What a playfield holds: the board, the column heights, the player to move, the last
/// column played and the cached score and end of game.
pub struct PlayfieldView {
    pub board: Seq<Seq<i8>>,
    pub columns: nat,
    pub heights: Seq<usize>,
    pub player: i8,
    pub last_move: Option<usize>,
    pub score: Option<i8>,
    pub finished: Option<bool>,
}

impl PlayfieldView {
    /// The board has the rows and columns of a game and holds pieces `1` and `-1` and empty
    /// cells `0`; no column is over-full; a player `1` or `-1` is to move. The column played
    /// last holds a piece; a full board has a column played last, and its game is not
    /// cached as running.
    pub open spec fn wf(self) -> bool {
        &&& self.board.len() == HEIGHT
        &&& self.columns == WIDTH
        &&& forall|r: int| 0 <= r < HEIGHT ==> (#[trigger] self.board[r]).len() == WIDTH
        &&& forall|r: int, c: int| 0 <= r < HEIGHT && 0 <= c < WIDTH ==> -1 <= #[trigger] self.board[r][c] <= 1
        &&& self.heights.len() == WIDTH
        &&& forall|c: int| 0 <= c < WIDTH ==> #[trigger] self.heights[c] <= HEIGHT
        &&& (self.player == P1 || self.player == P2)
        &&& (self.last_move matches Some(c) ==> c < WIDTH && 1 <= self.heights[c as int])
        &&& (all_full(self.heights) ==> self.last_move is Some && self.finished != Some(false))
    }

    /// The playfield after the player to move drops a piece into column `col`: the piece
    /// lands on the column's height, which grows by one; that column is the last one
    /// played, and both caches are dropped.
    pub open spec fn applied(self, col: usize) -> PlayfieldView {
        let h = self.heights[col as int] as int;
        PlayfieldView {
            board: self.board.update(h, self.board[h].update(col as int, self.player)),
            heights: self.heights.update(col as int, (h + 1) as usize),
            last_move: Some(col),
            finished: None,
            score: None,
            ..self
        }
    }

    /// The playfield after the top piece of column `col` is taken back: its cell is emptied
    /// and the column's height shrinks by one; no column counts as played last, the game
    /// counts as not over and the score cache is dropped.
    pub open spec fn reverted(self, col: usize) -> PlayfieldView {
        let h = self.heights[col as int] - 1;
        PlayfieldView {
            board: self.board.update(h, self.board[h].update(col as int, 0i8)),
            heights: self.heights.update(col as int, h as usize),
            last_move: None,
            finished: Some(false),
            score: None,
            ..self
        }
    }

    /// The playfield with the other player to move.
    pub open spec fn swapped(self) -> PlayfieldView {
        PlayfieldView { player: -self.player as i8, ..self }
    }

    /// The outcome computed afresh: none without a last move, else that of the top piece
    /// of the column played last.
    pub open spec fn outcome(self) -> (bool, i8) {
        match self.last_move {
            None => (false, 0i8),
            Some(col) => cell_outcome(self.board, self.heights, self.heights[col as int] - 1, col as int),
        }
    }

    /// Whether the game is over: the cached answer, else the one computed afresh.
    pub open spec fn finished_now(self) -> bool {
        match self.finished {
            Some(f) => f,
            None => self.outcome().0,
        }
    }

    /// The playfield once the end of its game has been asked: unchanged where that answer
    /// is cached, else with both caches filled from the outcome computed afresh.
    pub open spec fn checked(self) -> PlayfieldView {
        match self.finished {
            Some(f) => self,
            None => PlayfieldView { score: Some(self.outcome().1), finished: Some(self.outcome().0), ..self },
        }
    }
}

/// A game on a board of seven rows and eight columns, with whole-number scores.
pub struct Playfield {
    current_player: i8,
    values: Array2D<i8>,
    col_heights: [usize; WIDTH],
    last_move: Option<usize>,
    evaluation_score: Option<i8>,
    finished: Option<bool>,
}

impl View for Playfield {
    type V = PlayfieldView;

    closed spec fn view(&self) -> PlayfieldView {
        PlayfieldView {
            board: grid::board_rows(self.values),
            columns: grid::board_columns(self.values),
            heights: self.col_heights@,
            player: self.current_player,
            last_move: self.last_move,
            score: self.evaluation_score,
            finished: self.finished,
        }
    }
}

impl Playfield {
    /// The outcome of the top piece of column `col`.
    fn calculate_state(&self, col: usize) -> (r: (bool, i8))
        requires
            self@.wf(),
            col < WIDTH,
            1 <= self@.heights[col as int],
        ensures
            r == cell_outcome(self@.board, self@.heights, self@.heights[col as int] - 1, col as int),
    {
        let row = self.col_heights[col] - 1;
        let val = grid::board_get(&self.values, row, col);
        let seqs = sequences(row, col);
        let ghost rows = self@.board;
        let ghost ls = cell_lines(row as int, col as int);
        proof {
            assert(lines::line_inside(downward_line(row as int, col as int), HEIGHT as nat, WIDTH as nat));
            lines::lemma_lines_through_inside(downward_line(row as int, col as int), row as int, col as int, WIDTH as int, HEIGHT as int);
        }
        let mut total_score: i8 = 0;
        let mut k: usize = 0;
        while k < seqs.len()
            invariant
                self@.wf(),
                row < HEIGHT,
                col < WIDTH,
                row == self@.heights[col as int] - 1,
                val == rows[row as int][col as int],
                -1 <= val <= 1,
                rows == self@.board,
                rows == grid::board_rows(self.values),
                ls == cell_lines(row as int, col as int),
                seqs@.len() == ls.len(),
                ls.len() <= 4,
                forall|j: int| 0 <= j < seqs@.len() ==> (#[trigger] seqs@[j])@ == ls[j],
                forall|j: int| 0 <= j < ls.len() ==> lines::line_inside(#[trigger] ls[j], HEIGHT as nat, WIDTH as nat),
                k <= seqs@.len(),
                forall|j: int| 0 <= j < k ==> #[trigger] lines::best_window(val, grid::values_on(rows, ls[j]), ls[j].len() - 3) <= 3,
                total_score == sum_line_scores(rows, val, ls, k as int),
                0 <= total_score <= 3 * k,
            decreases seqs@.len() - k,
        {
            let line = &seqs[k];
            let vals = grid::gather(&self.values, line);
            let score = check(val, &vals);
            if score > 3 {
                assert(any_four(rows, val, ls));
                total_score = 127 * val;
                return (true, total_score);
            }
            total_score = total_score + score;
            k = k + 1;
        }
        assert(!any_four(rows, val, ls));
        assert(-12 <= total_score * val <= 12) by (nonlinear_arith)
            requires
                0 <= total_score <= 12,
                -1 <= val <= 1,
        ;
        total_score = total_score * val;
        let mut full = true;
        let mut c: usize = 0;
        while c < WIDTH
            invariant
                c <= WIDTH,
                self@.wf(),
                full == (forall|j: int| 0 <= j < c ==> #[trigger] self@.heights[j] == HEIGHT),
            decreases WIDTH - c,
        {
            full = full && self.col_heights[c] == HEIGHT;
            c = c + 1;
        }
        (full, total_score)
    }

    /// Compute the outcome afresh and cache its score and end of game.
    fn update_state(&mut self) -> (r: (bool, i8))
        requires
            old(self)@.wf(),
        ensures
            r == old(self)@.outcome(),
            final(self)@ == (PlayfieldView { score: Some(r.1), finished: Some(r.0), ..old(self)@ }),
    {
        let (finished, score) = match self.last_move {
            None => (false, 0),
            Some(col) => self.calculate_state(col),
        };
        self.evaluation_score = Some(score);
        self.finished = Some(finished);
        (finished, score)
    }

    /// The score of the playfield: the cached one, else one computed afresh and cached.
    pub fn evaluate(&mut self) -> (score: i8)
        requires
            old(self)@.wf(),
        ensures
            score == match old(self)@.score {
                Some(s) => s,
                None => old(self)@.outcome().1,
            },
            final(self)@ == match old(self)@.score {
                Some(s) => old(self)@,
                None => PlayfieldView { score: Some(old(self)@.outcome().1), finished: Some(old(self)@.outcome().0), ..old(self)@ },
            },
            final(self)@.wf(),
    {
        match self.evaluation_score {
            Some(s) => s,
            None => {
                let (_, score) = self.update_state();
                score
            },
        }
    }

    /// Drop the current player's piece into column `*action`.
    pub fn apply(&mut self, action: &usize)
        requires
            old(self)@.wf(),
            *action < WIDTH,
            old(self)@.heights[*action as int] < HEIGHT,
        ensures
            final(self)@ == old(self)@.applied(*action),
            final(self)@.wf(),
    {
        let col = *action;
        let h = self.col_heights[col];
        grid::board_set(&mut self.values, h, col, self.current_player);
        self.col_heights[col] = h + 1;
        self.last_move = Some(col);
        self.finished = None;
        self.evaluation_score = None;
    }

    /// Take back the top piece of column `*action`.
    pub fn revert(&mut self, action: &usize)
        requires
            old(self)@.wf(),
            *action < WIDTH,
            old(self)@.heights[*action as int] >= 1,
        ensures
            final(self)@ == old(self)@.reverted(*action),
            final(self)@.wf(),
    {
        let col = *action;
        let h = self.col_heights[col] - 1;
        grid::board_set(&mut self.values, h, col, 0);
        self.col_heights[col] = h;
        self.last_move = None;
        self.finished = Some(false);
        self.evaluation_score = None;
        assert(self@.heights[col as int] < HEIGHT);
    }

    /// Whether the game is over: the cached answer, else one computed afresh and cached.
    pub fn is_finished(&mut self) -> (finished: bool)
        requires
            old(self)@.wf(),
        ensures
            finished == old(self)@.finished_now(),
            final(self)@ == old(self)@.checked(),
            final(self)@.wf(),
    {
        match self.finished {
            Some(f) => f,
            None => {
                let (finished, _) = self.update_state();
                finished
            },
        }
    }

    /// The columns that still have room, in increasing order.
    pub fn actions(&self) -> (cols: Vec<usize>)
        requires
            self@.wf(),
        ensures
            cols@ == open_columns(self@.heights, WIDTH as int),
            forall|c: int| 0 <= c < WIDTH ==> (cols@.contains(c as usize) <==> #[trigger] self@.heights[c] < HEIGHT),
            forall|i: int| 0 <= i < cols@.len() ==> #[trigger] cols@[i] < WIDTH,
            forall|i: int, j: int| 0 <= i < j < cols@.len() ==> cols@[i] < cols@[j],
    {
        let mut cols: Vec<usize> = Vec::new();
        let mut i: usize = 0;
        while i < WIDTH
            invariant
                i <= WIDTH,
                self@.wf(),
                cols@ == open_columns(self@.heights, i as int),
            decreases WIDTH - i,
        {
            if self.col_heights[i] < HEIGHT {
                cols.push(i);
            }
            i = i + 1;
        }
        proof { lemma_open_columns_members(self@.heights, WIDTH as int); }
        cols
    }

    /// Hand the move to the other player.
    pub fn swap_players(&mut self)
        requires
            old(self)@.wf(),
        ensures
            final(self)@ == old(self)@.swapped(),
            final(self)@.wf(),
    {
        self.current_player = self.current_player * -1;
    }

    /// An empty playfield with the first player to move.
    pub fn new() -> (p: Playfield)
        ensures
            p@.wf(),
            p@.board == Seq::new(HEIGHT as nat, |r: int| Seq::new(WIDTH as nat, |c: int| 0i8)),
            p@.heights == Seq::new(WIDTH as nat, |c: int| 0usize),
            p@.player == P1,
            p@.last_move is None,
            p@.finished == Some(false),
            p@.score == Some(0i8),
    {
        let p = Playfield {
            current_player: P1,
            values: grid::board_filled_with(0, HEIGHT, WIDTH),
            col_heights: [0; WIDTH],
            last_move: None,
            finished: Some(false),
            evaluation_score: Some(0),
        };
        assert(p@.heights =~= Seq::new(WIDTH as nat, |c: int| 0usize));
        assert(p@.heights[0] < HEIGHT);
        p
    }

    /// Play column `col` for the player to move, unless the game is over.
    pub fn play_col(&mut self, col: usize) -> (r: Result<(), String>)
        requires
            old(self)@.wf(),
            !old(self)@.finished_now() ==> col < WIDTH && old(self)@.heights[col as int] < HEIGHT,
        ensures
            match r {
                Ok(_) => !old(self)@.finished_now() && final(self)@ == old(self)@.applied(col),
                Err(e) => old(self)@.finished_now() && final(self)@ == old(self)@.checked()
                    && e@ == "Game already finished"@,
            },
            final(self)@.wf(),
    {
        if self.is_finished() {
            Err("Game already finished".to_owned())
        } else {
            self.apply(&col);
            Ok(())
        }
    }

    /// The player to move.
    pub fn current_player(&self) -> (p: i8)
        ensures
            p == self@.player,
    {
        self.current_player
    }

    /// How many pieces column `col` holds.
    pub fn col_height(&self, col: usize) -> (h: usize)
        requires
            col < WIDTH,
        ensures
            h == self@.heights[col as int],
    {
        self.col_heights[col]
    }
}

/// The columns with room left among the first `k` are exactly those of height below the
/// board's, each once, in increasing order.
pub proof fn lemma_open_columns_members(h: Seq<usize>, k: int)
    requires
        0 <= k <= h.len(),
        k <= WIDTH,
    ensures
        forall|c: int| 0 <= c < k ==> (open_columns(h, k).contains(c as usize) <==> #[trigger] h[c] < HEIGHT),
        forall|i: int| 0 <= i < open_columns(h, k).len() ==> #[trigger] open_columns(h, k)[i] < k,
        forall|i: int, j: int| 0 <= i < j < open_columns(h, k).len() ==> open_columns(h, k)[i] < open_columns(h, k)[j],
    decreases k,
{
    if k > 0 {
        lemma_open_columns_members(h, k - 1);
        let prev = open_columns(h, k - 1);
        let cur = open_columns(h, k);
        let tail: Seq<usize> = if h[k - 1] < HEIGHT { seq![(k - 1) as usize] } else { Seq::empty() };
        assert(cur == prev + tail);
        assert forall|i: int| 0 <= i < cur.len() implies #[trigger] cur[i] < k by {
            if i < prev.len() {
                assert(cur[i] == prev[i]);
            }
        }
        assert forall|c: int| 0 <= c < k implies (cur.contains(c as usize) <==> #[trigger] h[c] < HEIGHT) by {
            if cur.contains(c as usize) {
                let i = choose|i: int| 0 <= i < cur.len() && cur[i] == c as usize;
                if i < prev.len() {
                    assert(prev[i] == c as usize);
                    assert(prev.contains(c as usize));
                    assert(prev[i] < k - 1);
                } else {
                    assert(cur[i] == (k - 1) as usize);
                }
            }
            if h[c] < HEIGHT {
                if c < k - 1 {
                    assert(prev.contains(c as usize));
                    let i = choose|i: int| 0 <= i < prev.len() && prev[i] == c as usize;
                    assert(cur[i] == c as usize);
                } else {
                    assert(cur[prev.len() as int] == c as usize);
                }
            }
        }
        assert forall|i: int, j: int| 0 <= i < j < cur.len() implies cur[i] < cur[j] by {
            if j < prev.len() {
                assert(cur[i] == prev[i] && cur[j] == prev[j]);
            } else {
                assert(cur[i] == prev[i]);
                assert(prev[i] < k - 1);
            }
        }
    }
}

/// The columns `0..k` whose height is below the board's, in increasing order.
pub open spec fn open_columns(heights: Seq<usize>, k: int) -> Seq<usize>
    decreases k,
{
    if k <= 0 {
        Seq::empty()
    } else {
        open_columns(heights, k - 1) + (if heights[k - 1] < HEIGHT { seq![(k - 1) as usize] } else { Seq::empty() })
    }
}

/// Taking back a move restores the playfield's board, column heights and player to move,
/// where the cell the piece landed on was empty; no column counts as played last, and the
/// caches are left as a take-back leaves them.
pub proof fn lemma_revert_undoes_apply(s: PlayfieldView, col: usize)
    requires
        s.wf(),
        col < WIDTH,
        s.heights[col as int] < HEIGHT,
        s.board[s.heights[col as int] as int][col as int] == 0,
    ensures
        s.applied(col).reverted(col) == (PlayfieldView { last_move: None, finished: Some(false), score: None, ..s }),
{
    let h = s.heights[col as int] as int;
    let t = s.applied(col).reverted(col);
    assert(t.heights =~= s.heights);
    assert(t.board[h] =~= s.board[h]);
    assert(t.board =~= s.board);
}

proof fn lemma_open_columns_empty(h: Seq<usize>, k: int)
    requires
        0 <= k <= h.len(),
        open_columns(h, k).len() == 0,
    ensures
        forall|c: int| 0 <= c < k ==> #[trigger] h[c] >= HEIGHT,
    decreases k,
{
    if k > 0 {
        lemma_open_columns_empty(h, k - 1);
    }
}

/// Where no column has room left the game is over: a playfield without actions is finished.
pub proof fn lemma_no_actions_finished(s: PlayfieldView)
    requires
        s.wf(),
        open_columns(s.heights, WIDTH as int).len() == 0,
    ensures
        s.finished_now(),
{
    lemma_open_columns_empty(s.heights, WIDTH as int);
    assert(all_full(s.heights));
}

/// Handing the move over twice gives it back to the same player.
pub proof fn lemma_swap_twice(s: PlayfieldView)
    requires
        s.wf(),
    ensures
        s.swapped().swapped() == s,
{
}

proof fn lemma_sum_line_scores_bound(rows: Seq<Seq<i8>>, val: i8, ls: Seq<Seq<(usize, usize)>>, k: int)
    requires
        0 <= k <= ls.len(),
        forall|j: int| 0 <= j < k ==> #[trigger] lines::best_window(val, grid::values_on(rows, ls[j]), ls[j].len() - 3) <= 3,
    ensures
        0 <= sum_line_scores(rows, val, ls, k) <= 3 * k,
    decreases k,
{
    if k > 0 {
        lemma_sum_line_scores_bound(rows, val, ls, k - 1);
    }
}

/// On a board of pieces `1`, `-1` and empty cells `0`, every score lies between `-127` and `127`.
pub proof fn lemma_score_range(rows: Seq<Seq<i8>>, heights: Seq<usize>, row: int, col: int)
    requires
        -1 <= rows[row][col] <= 1,
    ensures
        -127 <= cell_outcome(rows, heights, row, col).1 <= 127,
{
    let val = rows[row][col];
    let ls = cell_lines(row, col);
    if !any_four(rows, val, ls) {
        lemma_sum_line_scores_bound(rows, val, ls, ls.len() as int);
        let t = sum_line_scores(rows, val, ls, ls.len() as int);
        assert(-12 <= t * val <= 12) by (nonlinear_arith)
            requires
                0 <= t <= 12,
                -1 <= val <= 1,
        ;
    }
}


/// Four cells in a straight line with `(row, col)`, the `k`-th of them, all on the board and
/// all holding the piece on `(row, col)`: along its row (direction `1`) or one of its
/// diagonals (`2` rising, `3` falling), or in its column the cell and the three below it
/// (direction `0`).
pub open spec fn four_through(rows: Seq<Seq<i8>>, row: int, col: int, dir: int, k: int) -> bool {
    &&& 0 <= dir < 4
    &&& 0 <= k < 4
    &&& (dir == 0 ==> k == 3)
    &&& forall|t: int| 0 <= t < 4 ==> {
        let p = #[trigger] engine::line_cell(row, col, dir, k, t);
        &&& 0 <= p.0 < HEIGHT
        &&& 0 <= p.1 < WIDTH
        &&& rows[p.0][p.1] == rows[row][col]
    }
}

proof fn lemma_column_window(rows: Seq<Seq<i8>>, row: int, col: int, st: int)
    requires
        0 <= row < HEIGHT,
        0 <= col < WIDTH,
        0 <= st,
        st + 4 <= downward_line(row, col).len(),
        forall|t: int| 0 <= t < 4 ==> #[trigger] rows[downward_line(row, col)[st + t].0 as int][downward_line(row, col)[st + t].1 as int] == rows[row][col],
    ensures
        four_through(rows, row, col, 0, 3),
{
    let l = downward_line(row, col);
    let lo = if row >= 3 { row - 3 } else { 0 };
    let val = rows[row][col];
    assert forall|t: int| 0 <= t < 4 implies ({
        let p = #[trigger] engine::line_cell(row, col, 0, 3, t);
        &&& 0 <= p.0 < HEIGHT
        &&& 0 <= p.1 < WIDTH
        &&& rows[p.0][p.1] == val
    }) by {
        assert(l[st + t] == ((lo + st + t) as usize, col as usize));
        assert(rows[l[st + t].0 as int][l[st + t].1 as int] == val);
    }
}

proof fn lemma_row_window(rows: Seq<Seq<i8>>, row: int, col: int, st: int)
    requires
        0 <= row < HEIGHT,
        0 <= col < WIDTH,
        0 <= st,
        st + 4 <= lines::horizontal_line(row, col, WIDTH as int).len(),
        forall|t: int| 0 <= t < 4 ==> #[trigger] rows[lines::horizontal_line(row, col, WIDTH as int)[st + t].0 as int][lines::horizontal_line(row, col, WIDTH as int)[st + t].1 as int] == rows[row][col],
    ensures
        four_through(rows, row, col, 1, col - (if col >= 3 { col - 3 } else { 0 }) - st),
{
    let l = lines::horizontal_line(row, col, WIDTH as int);
    let lo = if col >= 3 { col - 3 } else { 0 };
    let k = col - lo - st;
    let val = rows[row][col];
    assert forall|t: int| 0 <= t < 4 implies ({
        let p = #[trigger] engine::line_cell(row, col, 1, k, t);
        &&& 0 <= p.0 < HEIGHT
        &&& 0 <= p.1 < WIDTH
        &&& rows[p.0][p.1] == val
    }) by {
        assert(l[st + t] == (row as usize, (lo + st + t) as usize));
        assert(rows[l[st + t].0 as int][l[st + t].1 as int] == val);
    }
}

proof fn lemma_rising_window(rows: Seq<Seq<i8>>, row: int, col: int, st: int)
    requires
        0 <= row < HEIGHT,
        0 <= col < WIDTH,
        0 <= st,
        st + 4 <= lines::rising_diagonal(row, col, WIDTH as int, HEIGHT as int).len(),
        forall|t: int| 0 <= t < 4 ==> #[trigger] rows[lines::rising_diagonal(row, col, WIDTH as int, HEIGHT as int)[st + t].0 as int][lines::rising_diagonal(row, col, WIDTH as int, HEIGHT as int)[st + t].1 as int] == rows[row][col],
    ensures
        four_through(rows, row, col, 2, lines::diagonal_back(row, col) - st),
{
    let l = lines::rising_diagonal(row, col, WIDTH as int, HEIGHT as int);
    let d = lines::diagonal_back(row, col);
    let k = d - st;
    let val = rows[row][col];
    assert forall|t: int| 0 <= t < 4 implies ({
        let p = #[trigger] engine::line_cell(row, col, 2, k, t);
        &&& 0 <= p.0 < HEIGHT
        &&& 0 <= p.1 < WIDTH
        &&& rows[p.0][p.1] == val
    }) by {
        assert(l[st + t] == ((row - d + st + t) as usize, (col - d + st + t) as usize));
        assert(rows[l[st + t].0 as int][l[st + t].1 as int] == val);
    }
}

proof fn lemma_falling_window(rows: Seq<Seq<i8>>, row: int, col: int, st: int)
    requires
        0 <= row < HEIGHT,
        0 <= col < WIDTH,
        0 <= st,
        st + 4 <= lines::falling_diagonal(row, col, WIDTH as int, HEIGHT as int).len(),
        forall|t: int| 0 <= t < 4 ==> #[trigger] rows[lines::falling_diagonal(row, col, WIDTH as int, HEIGHT as int)[st + t].0 as int][lines::falling_diagonal(row, col, WIDTH as int, HEIGHT as int)[st + t].1 as int] == rows[row][col],
    ensures
        four_through(rows, row, col, 3, lines::diagonal_back(row, WIDTH - 1 - col) - st),
{
    let l = lines::falling_diagonal(row, col, WIDTH as int, HEIGHT as int);
    let mc = WIDTH - 1 - col;
    let rdm = lines::rising_diagonal(row, mc, WIDTH as int, HEIGHT as int);
    let d = lines::diagonal_back(row, mc);
    let k = d - st;
    let val = rows[row][col];
    assert forall|t: int| 0 <= t < 4 implies ({
        let p = #[trigger] engine::line_cell(row, col, 3, k, t);
        &&& 0 <= p.0 < HEIGHT
        &&& 0 <= p.1 < WIDTH
        &&& rows[p.0][p.1] == val
    }) by {
        assert(rdm[st + t] == ((row - d + st + t) as usize, (mc - d + st + t) as usize));
        assert(l[st + t] == ((row - d + st + t) as usize, (col + d - st - t) as usize));
        assert(rows[l[st + t].0 as int][l[st + t].1 as int] == val);
    }
}

/// A line of four found on one of the lines through a cell is a four through that cell.
proof fn lemma_any_four_has_four_through(rows: Seq<Seq<i8>>, row: int, col: int)
    requires
        0 <= row < HEIGHT,
        0 <= col < WIDTH,
        any_four(rows, rows[row][col], cell_lines(row, col)),
    ensures
        rows[row][col] != 0,
        exists|dir: int, k: int| four_through(rows, row, col, dir, k),
{
    let val = rows[row][col];
    let ls = cell_lines(row, col);
    let i = choose|i: int| 0 <= i < ls.len() && lines::best_window(val, grid::values_on(rows, ls[i]), ls[i].len() - 3) > 3;
    let l = ls[i];
    let vs = grid::values_on(rows, l);
    lines::lemma_best_window_full(val, vs, l.len() - 3);
    let st = choose|st: int| 0 <= st < l.len() - 3 && #[trigger] lines::four_equal(vs, val, st);
    assert forall|t: int| 0 <= t < 4 implies #[trigger] rows[l[st + t].0 as int][l[st + t].1 as int] == val by {
        assert(vs[st + t] == val);
    }
    lines::lemma_lines_through_member(downward_line(row, col), row, col, WIDTH as int, HEIGHT as int, i);
    if l == downward_line(row, col) {
        lemma_column_window(rows, row, col, st);
        assert(four_through(rows, row, col, 0, 3));
    } else if l == lines::horizontal_line(row, col, WIDTH as int) {
        lemma_row_window(rows, row, col, st);
        assert(four_through(rows, row, col, 1, col - (if col >= 3 { col - 3 } else { 0 }) - st));
    } else if l == lines::rising_diagonal(row, col, WIDTH as int, HEIGHT as int) {
        lemma_rising_window(rows, row, col, st);
        assert(four_through(rows, row, col, 2, lines::diagonal_back(row, col) - st));
    } else {
        lemma_falling_window(rows, row, col, st);
        assert(four_through(rows, row, col, 3, lines::diagonal_back(row, WIDTH - 1 - col) - st));
    }
    lines::lemma_best_window_clean(val, vs, l.len() - 3);
    if val == 0 {
        let w = choose|w: int| 0 <= w < l.len() - 3
            && (forall|j: int| w <= j < w + 4 ==> vs[j] != -val)
            && lines::best_window(val, vs, l.len() - 3) == #[trigger] lines::count_equal(vs, val as int, w, w + 4);
        lemma_count_none(vs, val as int, w, w + 4);
    }
}

proof fn lemma_count_none(s: Seq<i8>, val: int, lo: int, hi: int)
    requires
        forall|i: int| lo <= i < hi ==> s[i] != val,
    ensures
        lines::count_equal(s, val, lo, hi) == 0,
    decreases hi - lo,
{
    if hi > lo {
        lemma_count_none(s, val, lo, hi - 1);
    }
}


/// A line through the cell that scores four for the cell's piece is a line of four.
proof fn lemma_scoring_line_any_four(rows: Seq<Seq<i8>>, row: int, col: int, l: Seq<(usize, usize)>)
    requires
        cell_lines(row, col).contains(l),
        lines::best_window(rows[row][col], grid::values_on(rows, l), l.len() - 3) >= 4,
    ensures
        any_four(rows, rows[row][col], cell_lines(row, col)),
{
    let ls = cell_lines(row, col);
    let k = choose|k: int| 0 <= k < ls.len() && ls[k] == l;
    assert(lines::best_window(rows[row][col], grid::values_on(rows, ls[k]), ls[k].len() - 3) > 3);
}

proof fn lemma_column_four_scores(rows: Seq<Seq<i8>>, row: int, col: int)
    requires
        0 <= row < HEIGHT,
        0 <= col < WIDTH,
        rows[row][col] != 0,
        four_through(rows, row, col, 0, 3),
    ensures
        any_four(rows, rows[row][col], cell_lines(row, col)),
{
    let val = rows[row][col];
    let l = downward_line(row, col);
    lines::lemma_lines_through_contains(l, row, col, WIDTH as int, HEIGHT as int);
    assert(engine::line_cell(row, col, 0, 3, 0).0 >= 0);
    assert forall|t: int| 0 <= t < 4 implies #[trigger] rows[l[t].0 as int][l[t].1 as int] == val by {
        assert(engine::line_cell(row, col, 0, 3, t) == (row - 3 + t, col));
        assert(l[t] == ((row - 3 + t) as usize, col as usize));
    }
    assert forall|t: int| 0 <= t < 4 implies #[trigger] rows[l[0 + t].0 as int][l[0 + t].1 as int] == val by {
        assert(rows[l[t].0 as int][l[t].1 as int] == val);
    }
    engine::lemma_line_scores_four(rows, val, l, 0);
    lemma_scoring_line_any_four(rows, row, col, l);
}

proof fn lemma_row_four_scores(rows: Seq<Seq<i8>>, row: int, col: int, k: int)
    requires
        0 <= row < HEIGHT,
        0 <= col < WIDTH,
        rows[row][col] != 0,
        four_through(rows, row, col, 1, k),
    ensures
        any_four(rows, rows[row][col], cell_lines(row, col)),
{
    let val = rows[row][col];
    lines::lemma_lines_through_contains(downward_line(row, col), row, col, WIDTH as int, HEIGHT as int);
    assert(engine::line_cell(row, col, 1, k, 0).1 >= 0);
    assert(engine::line_cell(row, col, 1, k, 3).1 < WIDTH);
    let h = lines::horizontal_line(row, col, WIDTH as int);
    let lo = if col >= 3 { col - 3 } else { 0 };
    let i0 = col - k - lo;
    assert forall|t: int| 0 <= t < 4 implies #[trigger] rows[h[i0 + t].0 as int][h[i0 + t].1 as int] == val by {
        assert(engine::line_cell(row, col, 1, k, t) == (row, col - k + t));
    }
    engine::lemma_line_scores_four(rows, val, h, i0);
    lemma_scoring_line_any_four(rows, row, col, h);
}

#[verifier::spinoff_prover]
#[verifier::rlimit(40)]
proof fn lemma_rising_four_scores(rows: Seq<Seq<i8>>, row: int, col: int, k: int)
    requires
        0 <= row < HEIGHT,
        0 <= col < WIDTH,
        rows[row][col] != 0,
        four_through(rows, row, col, 2, k),
    ensures
        any_four(rows, rows[row][col], cell_lines(row, col)),
{
    let val = rows[row][col];
    lines::lemma_lines_through_contains(downward_line(row, col), row, col, WIDTH as int, HEIGHT as int);
    assert(engine::line_cell(row, col, 2, k, 0) == (row - k, col - k));
    assert(engine::line_cell(row, col, 2, k, 3) == (row - k + 3, col - k + 3));
    let rd = lines::rising_diagonal(row, col, WIDTH as int, HEIGHT as int);
    let d = lines::diagonal_back(row, col);
    let i0 = d - k;
    assert(lines::diagonal_steps(row, col, WIDTH as int, HEIGHT as int) >= i0 + 4);
    assert forall|t: int| 0 <= t < 4 implies #[trigger] rows[rd[i0 + t].0 as int][rd[i0 + t].1 as int] == val by {
        assert(engine::line_cell(row, col, 2, k, t) == (row - k + t, col - k + t));
    }
    engine::lemma_line_scores_four(rows, val, rd, i0);
    lemma_scoring_line_any_four(rows, row, col, rd);
}

proof fn lemma_falling_cells(row: int, col: int, k: int) -> (i0: int)
    requires
        0 <= k < 4,
        0 <= row - k,
        row - k + 3 < HEIGHT,
        col + k < WIDTH,
        0 <= col + k - 3,
    ensures
        0 <= i0,
        i0 + 4 <= lines::falling_diagonal(row, col, WIDTH as int, HEIGHT as int).len(),
        forall|t: int| 0 <= t < 4 ==> #[trigger] lines::falling_diagonal(row, col, WIDTH as int, HEIGHT as int)[i0 + t]
            == ((row - k + t) as usize, (col + k - t) as usize),
{
    let mc = WIDTH - 1 - col;
    let rdm = lines::rising_diagonal(row, mc, WIDTH as int, HEIGHT as int);
    let ld = lines::falling_diagonal(row, col, WIDTH as int, HEIGHT as int);
    let d = lines::diagonal_back(row, mc);
    let i0 = d - k;
    assert(lines::diagonal_steps(row, mc, WIDTH as int, HEIGHT as int) >= i0 + 4);
    assert forall|t: int| 0 <= t < 4 implies #[trigger] ld[i0 + t] == ((row - k + t) as usize, (col + k - t) as usize) by {
        assert(rdm[i0 + t] == ((row - d + i0 + t) as usize, (mc - d + i0 + t) as usize));
    }
    i0
}

proof fn lemma_falling_four_scores(rows: Seq<Seq<i8>>, row: int, col: int, k: int)
    requires
        0 <= row < HEIGHT,
        0 <= col < WIDTH,
        rows[row][col] != 0,
        four_through(rows, row, col, 3, k),
    ensures
        any_four(rows, rows[row][col], cell_lines(row, col)),
{
    let val = rows[row][col];
    lines::lemma_lines_through_contains(downward_line(row, col), row, col, WIDTH as int, HEIGHT as int);
    assert(engine::line_cell(row, col, 3, k, 0) == (row - k, col + k));
    assert(engine::line_cell(row, col, 3, k, 3) == (row - k + 3, col + k - 3));
    let ld = lines::falling_diagonal(row, col, WIDTH as int, HEIGHT as int);
    let i0 = lemma_falling_cells(row, col, k);
    assert forall|t: int| 0 <= t < 4 implies #[trigger] rows[ld[i0 + t].0 as int][ld[i0 + t].1 as int] == val by {
        assert(engine::line_cell(row, col, 3, k, t) == (row - k + t, col + k - t));
        assert(ld[i0 + t] == ((row - k + t) as usize, (col + k - t) as usize));
    }
    engine::lemma_line_scores_four(rows, val, ld, i0);
    lemma_scoring_line_any_four(rows, row, col, ld);
}

/// The cell `(row, col)` wins exactly when it holds a piece and it and three more cells in a
/// straight line with it hold that piece: along its row or a diagonal, or in its column it
/// and the three below it. A win is over and scores `127` for its piece; otherwise the game
/// is over exactly when every column is full.
pub proof fn lemma_cell_outcome_iff_four(rows: Seq<Seq<i8>>, heights: Seq<usize>, row: int, col: int)
    requires
        0 <= row < HEIGHT,
        0 <= col < WIDTH,
    ensures
        any_four(rows, rows[row][col], cell_lines(row, col))
            <==> (rows[row][col] != 0 && exists|dir: int, k: int| four_through(rows, row, col, dir, k)),
        (rows[row][col] != 0 && exists|dir: int, k: int| four_through(rows, row, col, dir, k))
            ==> cell_outcome(rows, heights, row, col) == (true, (127 * rows[row][col]) as i8),
        !(rows[row][col] != 0 && exists|dir: int, k: int| four_through(rows, row, col, dir, k))
            ==> cell_outcome(rows, heights, row, col).0 == (forall|c: int| 0 <= c < WIDTH ==> #[trigger] heights[c] == HEIGHT),
{
    let val = rows[row][col];
    if any_four(rows, val, cell_lines(row, col)) {
        lemma_any_four_has_four_through(rows, row, col);
    }
    if val != 0 && exists|dir: int, k: int| four_through(rows, row, col, dir, k) {
        let (dir, k) = choose|dir: int, k: int| four_through(rows, row, col, dir, k);
        if dir == 0 {
            lemma_column_four_scores(rows, row, col);
        } else if dir == 1 {
            lemma_row_four_scores(rows, row, col, k);
        } else if dir == 2 {
            lemma_rising_four_scores(rows, row, col, k);
        } else {
            lemma_falling_four_scores(rows, row, col, k);
        }
    }
}

} // verus!
