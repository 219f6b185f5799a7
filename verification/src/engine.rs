//! The Connect Four engine on a board of six rows and seven columns: the lines
//! through a cell, the score of a line, and the state that a search walks.
use array2d::Array2D;
use vstd::prelude::*;
use crate::grid;
use crate::lines;

verus! {

pub const WIDTH: usize = 7;
pub const HEIGHT: usize = 6;
pub const TOTAL_FIELDS: usize = 42;

/// The score of a position that the first player has won; the second player's wins score its negation.
pub const MAX_SCORE: i32 = 127;

pub const P1: i8 = 1;
pub const P2: i8 = -1;

/// What an evaluation says of a position: its score (positive favours the first player),
/// whether the game is over, and who won, if anyone.
#[derive(Clone, Copy, PartialEq, Eq, Debug)]
pub struct Eval {
    pub score: i32,
    pub finished: bool,
    pub winner: Option<i8>,
}

/// An evaluation of the position after a move, with the four cells that won it, if it was won.
pub struct EvaluationResult {
    pub eval: Eval,
    pub winning_cells: Option<Vec<(usize, usize)>>,
}

/// The best score over the windows of four consecutive values: for each window,
/// zero where `-val` occurs in it, else how many of its values equal `val`.
pub fn check(val: i8, values: &Vec<i8>) -> (best: u8)
    requires
        values@.len() >= 4 ==> val != i8::MIN,
    ensures
        best == lines::best_window(val, values@, values@.len() - 3),
        best <= 4,
        forall|st: int| 0 <= st && st + 4 <= values@.len() && (forall|i: int| st <= i < st + 4 ==> values@[i] != -val)
            ==> best >= #[trigger] lines::count_equal(values@, val as int, st, st + 4),
        best == 0 || exists|st: int| 0 <= st && st + 4 <= values@.len()
            && (forall|i: int| st <= i < st + 4 ==> values@[i] != -val)
            && best == #[trigger] lines::count_equal(values@, val as int, st, st + 4),
{
    let mut best_score: u8 = 0;
    let len = values.len();
    // the windows `values[start..start + 4]`, for every `start + 4 <= len`
    let mut start: usize = 0;
    proof { lines::lemma_best_window_bound(val, values@, 0); }
    while start < len && len - start >= 4
        invariant
            len == values@.len(),
            len >= 3 ==> start <= len - 3,
            len < 3 ==> start == 0,
            len >= 4 ==> val != i8::MIN,
            best_score == lines::best_window(val, values@, start as int),
        decreases len - start,
    {
        let mut score: u8 = 0;
        let mut j = start;
        let end = start + 4;
        while j < end
            invariant_except_break
                end == start + 4,
                start + 4 <= values@.len(),
                start <= j <= start + 4,
                val != i8::MIN,
                !lines::holds_value(values@, -val, start as int, j as int),
                score == lines::count_equal(values@, val as int, start as int, j as int),
                score <= j - start,
            ensures
                score == lines::window_score(val, values@, start as int),
            decreases start + 4 - j,
        {
            let v = values[j];
            if v == -val {
                score = 0;
                break;
            }
            if v == val {
                score = score + 1;
            }
            j = j + 1;
        }
        if score > best_score {
            best_score = score;
        }
        start = start + 1;
    }
    proof {
        lines::lemma_best_window_bound(val, values@, values@.len() - 3);
        lines::lemma_best_window_clean(val, values@, values@.len() - 3);
    }
    best_score
}

/// The row through `(row, col)`: the columns at most three away on either side.
pub fn h_tup_seq(row: usize, col: usize) -> (cells: Vec<(usize, usize)>)
    requires
        col < WIDTH,
    ensures
        cells@ == lines::horizontal_line(row as int, col as int, WIDTH as int),
{
    lines::horizontal(row, col, WIDTH)
}

/// The column through `(row, col)`: the rows at most three away on either side.
pub fn v_tup_seq(row: usize, col: usize) -> (cells: Vec<(usize, usize)>)
    requires
        row < HEIGHT,
    ensures
        cells@ == vertical_line(row as int, col as int),
{
    let lo: usize = if row >= 3 { row - 3 } else { 0 };
    let hi: usize = if row + 4 <= HEIGHT { row + 4 } else { HEIGHT };
    lines::column_cells(col, lo, hi)
}

/// The cells of the column through `(row, col)` at most three rows away.
pub open spec fn vertical_line(row: int, col: int) -> Seq<(usize, usize)> {
    lines::column_span(
        col,
        if row >= 3 { row - 3 } else { 0 },
        if row + 4 <= HEIGHT { row + 4 } else { HEIGHT as int },
    )
}

/// The rising diagonal through `(row, col)`, or no cell where it holds fewer than four.
pub fn rdiag_tup_seq(row: usize, col: usize) -> (cells: Vec<(usize, usize)>)
    ensures
        cells@ == lines::rising_diagonal(row as int, col as int, WIDTH as int, HEIGHT as int),
{
    lines::rising(row, col, WIDTH, HEIGHT)
}

/// The falling diagonal through `(row, col)`, or no cell where it holds fewer than four.
pub fn ldiag_tup_seq(row: usize, col: usize) -> (cells: Vec<(usize, usize)>)
    requires
        col < WIDTH,
    ensures
        cells@ == lines::falling_diagonal(row as int, col as int, WIDTH as int, HEIGHT as int),
{
    lines::falling(row, col, WIDTH, HEIGHT)
}

/// The lines through `(row, col)` that a line of four through it can use, in the order
/// column, row, rising diagonal, falling diagonal; a diagonal too short for four is left out.
pub open spec fn cell_lines(row: int, col: int) -> Seq<Seq<(usize, usize)>> {
    lines::lines_through(vertical_line(row, col), row, col, WIDTH as int, HEIGHT as int)
}

/// Every line through a cell of the board stays on the board.
pub proof fn lemma_cell_lines_inside(row: int, col: int)
    requires
        0 <= row < HEIGHT,
        0 <= col < WIDTH,
    ensures
        forall|k: int| 0 <= k < cell_lines(row, col).len()
            ==> lines::line_inside(#[trigger] cell_lines(row, col)[k], HEIGHT as nat, WIDTH as nat),
{
    assert(lines::line_inside(vertical_line(row, col), HEIGHT as nat, WIDTH as nat));
    lines::lemma_lines_through_inside(vertical_line(row, col), row, col, WIDTH as int, HEIGHT as int);
}

/// The lines through `(row, col)` that a line of four can use: column, row and the
/// diagonals that hold at least four cells.
pub fn sequences(row: usize, col: usize) -> (all: Vec<Vec<(usize, usize)>>)
    requires
        row < HEIGHT,
        col < WIDTH,
    ensures
        all@.len() == cell_lines(row as int, col as int).len(),
        forall|k: int| 0 <= k < all@.len() ==> (#[trigger] all@[k])@ == cell_lines(row as int, col as int)[k],
{
    lines::gather_lines(v_tup_seq(row, col), h_tup_seq(row, col), rdiag_tup_seq(row, col), ldiag_tup_seq(row, col))
}

/// The scores of the lines of a cell for the player `val`.
pub open spec fn line_scores(rows: Seq<Seq<i8>>, val: i8, ls: Seq<Seq<(usize, usize)>>) -> Seq<nat> {
    ls.map_values(|l: Seq<(usize, usize)>| lines::best_window(val, grid::values_on(rows, l), l.len() - 3))
}

/// The sum of the first `k` scores.
pub open spec fn sum_scores(sc: Seq<nat>, k: int) -> nat
    decreases k,
{
    if k <= 0 { 0 } else { sum_scores(sc, k - 1) + sc[k - 1] }
}

/// How many of the first `k` scores are above zero.
pub open spec fn count_scored(sc: Seq<nat>, k: int) -> nat
    decreases k,
{
    if k <= 0 { 0 } else { count_scored(sc, k - 1) + (if sc[k - 1] > 0 { 1nat } else { 0nat }) }
}

/// Whether one of the scores is a full line of four.
pub open spec fn has_four(sc: Seq<nat>) -> bool {
    exists|k: int| 0 <= k < sc.len() && sc[k] > 3
}

/// The evaluation of the position where `(row, col)` was the last cell played, with
/// `set_fields` cells taken: a line of four wins for the cell's holder `val`; otherwise
/// the score is the sum of the line scores, with the cell itself counted once, for `val`.
pub open spec fn position_eval(rows: Seq<Seq<i8>>, set_fields: int, row: int, col: int) -> Eval {
    let val = rows[row][col];
    let sc = line_scores(rows, val, cell_lines(row, col));
    if has_four(sc) {
        Eval { score: (MAX_SCORE * val) as i32, finished: true, winner: Some(val) }
    } else {
        let n = count_scored(sc, sc.len() as int);
        let total = sum_scores(sc, sc.len() as int) - (if n > 1 { n - 1 } else { 0 });
        Eval { score: (total * val) as i32, finished: set_fields >= TOTAL_FIELDS, winner: None }
    }
}

/// How many cells of column `col` among the rows `0..n` hold a piece.
pub open spec fn column_count(rows: Seq<Seq<i8>>, col: int, n: int) -> nat
    decreases n,
{
    if n <= 0 { 0 } else { column_count(rows, col, n - 1) + (if rows[n - 1][col] != 0 { 1nat } else { 0nat }) }
}

/// The sum of the first `k` column heights.
pub open spec fn sum_heights(h: Seq<usize>, k: int) -> nat
    decreases k,
{
    if k <= 0 { 0 } else { sum_heights(h, k - 1) + (h[k - 1] as nat) }
}

pub proof fn lemma_sum_heights_update(h: Seq<usize>, k: int, i: int, v: usize)
    requires
        0 <= i < h.len(),
        0 <= k <= h.len(),
    ensures
        i < k ==> sum_heights(h.update(i, v), k) + h[i] == sum_heights(h, k) + v,
        i >= k ==> sum_heights(h.update(i, v), k) == sum_heights(h, k),
    decreases k,
{
    if k > 0 {
        lemma_sum_heights_update(h, k - 1, i, v);
    }
}

pub proof fn lemma_sum_heights_bound(h: Seq<usize>, k: int, i: int)
    requires
        0 <= i < k <= h.len(),
    ensures
        h[i] <= sum_heights(h, k),
    decreases k,
{
    if k - 1 > i {
        lemma_sum_heights_bound(h, k - 1, i);
    }
}

/// What a state of the engine holds: the board and its column count, the column heights,
/// the number of cells taken, the player to move, the last column played and the cached evaluation.
pub struct ConnectFourView {
    pub board: Seq<Seq<i8>>,
    pub columns: nat,
    pub heights: Seq<usize>,
    pub set_fields: nat,
    pub player: i8,
    pub last_action: Option<usize>,
    pub cached: Option<Eval>,
}

/// A Connect Four position that the search walks: moves are applied and reverted in turn.
pub struct ConnectFour {
    current_player: i8,
    values: Array2D<i8>,
    col_heights: [usize; WIDTH],
    evaluation_result: Option<Eval>,
    set_fields: usize,
    last_action: Option<usize>,
}

impl View for ConnectFour {
    type V = ConnectFourView;

    closed spec fn view(&self) -> ConnectFourView {
        ConnectFourView {
            board: grid::board_rows(self.values),
            columns: grid::board_columns(self.values),
            heights: self.col_heights@,
            set_fields: self.set_fields as nat,
            player: self.current_player,
            last_action: self.last_action,
            cached: self.evaluation_result,
        }
    }
}

impl ConnectFourView {
    /// The board has the rows and columns of a game, every row of one length; there are
    /// as many cells taken as the column heights add up to; no evaluation is held cached.
    pub open spec fn wf(self) -> bool {
        &&& grid::board_fits(self.board, self.columns, HEIGHT as nat, WIDTH as nat)
        &&& self.heights.len() == WIDTH
        &&& self.set_fields == sum_heights(self.heights, WIDTH as int)
        &&& self.cached is None
    }

    /// The cell played last, found from its column's height.
    pub open spec fn last_row(self, col: int) -> int {
        self.heights[col] - 1
    }

    /// The state can be evaluated: either no column was played last, or the last column
    /// holds a piece in one of the rows of a game and that piece can be negated.
    pub open spec fn can_evaluate(self) -> bool {
        match self.last_action {
            None => true,
            Some(col) => {
                &&& col < WIDTH
                &&& 1 <= self.heights[col as int] <= HEIGHT
                &&& self.board[self.last_row(col as int)][col as int] != i8::MIN
            },
        }
    }

    /// The state after the player to move drops a piece into column `col`: the piece lands
    /// on the column's height, which grows by one; that column is the last one played.
    pub open spec fn applied(self, col: usize) -> ConnectFourView {
        let h = self.heights[col as int] as int;
        ConnectFourView {
            board: self.board.update(h, self.board[h].update(col as int, self.player)),
            heights: self.heights.update(col as int, (h + 1) as usize),
            set_fields: self.set_fields + 1,
            last_action: Some(col),
            cached: None,
            ..self
        }
    }

    /// The state after the top piece of column `col` is taken back: its cell is emptied and
    /// the column's height shrinks by one; no column counts as played last.
    pub open spec fn reverted(self, col: usize) -> ConnectFourView {
        let h = self.heights[col as int] - 1;
        ConnectFourView {
            board: self.board.update(h, self.board[h].update(col as int, 0i8)),
            heights: self.heights.update(col as int, h as usize),
            set_fields: (self.set_fields - 1) as nat,
            last_action: None,
            cached: None,
            ..self
        }
    }

    /// The state with the other player to move.
    pub open spec fn swapped(self) -> ConnectFourView {
        ConnectFourView { player: -self.player as i8, ..self }
    }

    /// The evaluation of the state: the cached one, else that of the last cell played,
    /// else a neutral one that is finished once the board is full.
    pub open spec fn evaluation(self) -> Eval {
        match self.cached {
            Some(e) => e,
            None => match self.last_action {
                None => Eval { score: 0, finished: self.set_fields >= TOTAL_FIELDS, winner: None },
                Some(col) => position_eval(self.board, self.set_fields as int, self.last_row(col as int), col as int),
            },
        }
    }
}

impl ConnectFour {
    /// The evaluation of the position reached by playing last in column `col`.
    fn calculate_state(&self, col: usize) -> (e: Eval)
        requires
            self@.wf(),
            col < WIDTH,
            1 <= self@.heights[col as int] <= HEIGHT,
            self@.board[self@.last_row(col as int)][col as int] != i8::MIN,
        ensures
            e == position_eval(self@.board, self@.set_fields as int, self@.last_row(col as int), col as int),
    {
        let row = self.col_heights[col] - 1;
        let val = grid::board_get(&self.values, row, col);
        let seqs = sequences(row, col);
        let ghost rows = self@.board;
        let ghost ls = cell_lines(row as int, col as int);
        let ghost sc = line_scores(rows, val, ls);
        proof { lemma_cell_lines_inside(row as int, col as int); }
        let mut total_score: i32 = 0;
        let mut len: u8 = 0;
        let mut k: usize = 0;
        while k < seqs.len()
            invariant
                self@.wf(),
                row < HEIGHT,
                col < WIDTH,
                row == self@.last_row(col as int),
                val == rows[row as int][col as int],
                val != i8::MIN,
                rows == self@.board,
                rows == grid::board_rows(self.values),
                ls == cell_lines(row as int, col as int),
                sc == line_scores(rows, val, ls),
                seqs@.len() == ls.len(),
                ls.len() <= 4,
                forall|j: int| 0 <= j < seqs@.len() ==> (#[trigger] seqs@[j])@ == ls[j],
                forall|j: int| 0 <= j < ls.len() ==> lines::line_inside(#[trigger] ls[j], HEIGHT as nat, WIDTH as nat),
                k <= seqs@.len(),
                forall|j: int| 0 <= j < k ==> #[trigger] sc[j] <= 3,
                total_score == sum_scores(sc, k as int),
                len == count_scored(sc, k as int),
                total_score <= 3 * k,
                len <= total_score,
                len <= k,
            decreases seqs@.len() - k,
        {
            let line = &seqs[k];
            let vals = grid::gather(&self.values, line);
            let score = check(val, &vals);
            assert(score == sc[k as int]);
            if score > 0 {
                len = len + 1;
            }
            if score > 3 {
                assert(has_four(sc));
                return Eval { score: MAX_SCORE * (val as i32), finished: true, winner: Some(val) };
            }
            total_score = total_score + (score as i32);
            k = k + 1;
        }
        assert(!has_four(sc));
        if len > 1 {
            total_score = total_score - ((len - 1) as i32);
        }
        assert(0 <= total_score <= 12);
        assert(-128 <= val <= 127);
        assert(-1536 <= total_score * (val as i32) <= 1536) by (nonlinear_arith)
            requires
                0 <= total_score <= 12,
                -128 <= val <= 127,
        ;
        total_score = total_score * (val as i32);
        Eval { score: total_score, finished: self.set_fields >= TOTAL_FIELDS, winner: None }
    }
}

/// The columns with room left among the first `k` are exactly those of height below the
/// board's, each once, in increasing order.
pub proof fn lemma_open_columns_members(h: Seq<usize>, k: int)
    requires
        0 <= k <= h.len(),
        k <= WIDTH,
    ensures
        forall|c: int| 0 <= c < k ==> (open_columns(h, k).contains(c as usize) <==> #[trigger] h[c] < HEIGHT),
        forall|i: int| 0 <= i < open_columns(h, k).len() ==> #[trigger] open_columns(h, k)[i] < k,
        forall|i: int, j: int| 0 <= i < j < open_columns(h, k).len() ==> open_columns(h, k)[i] < open_columns(h, k)[j],
    decreases k,
{
    if k > 0 {
        lemma_open_columns_members(h, k - 1);
        let prev = open_columns(h, k - 1);
        let cur = open_columns(h, k);
        let tail: Seq<usize> = if h[k - 1] < HEIGHT { seq![(k - 1) as usize] } else { Seq::empty() };
        assert(cur == prev + tail);
        assert forall|i: int| 0 <= i < cur.len() implies #[trigger] cur[i] < k by {
            if i < prev.len() {
                assert(cur[i] == prev[i]);
            }
        }
        assert forall|c: int| 0 <= c < k implies (cur.contains(c as usize) <==> #[trigger] h[c] < HEIGHT) by {
            if cur.contains(c as usize) {
                let i = choose|i: int| 0 <= i < cur.len() && cur[i] == c as usize;
                if i < prev.len() {
                    assert(prev[i] == c as usize);
                    assert(prev.contains(c as usize));
                    assert(prev[i] < k - 1);
                } else {
                    assert(cur[i] == (k - 1) as usize);
                }
            }
            if h[c] < HEIGHT {
                if c < k - 1 {
                    assert(prev.contains(c as usize));
                    let i = choose|i: int| 0 <= i < prev.len() && prev[i] == c as usize;
                    assert(cur[i] == c as usize);
                } else {
                    assert(cur[prev.len() as int] == c as usize);
                }
            }
        }
        assert forall|i: int, j: int| 0 <= i < j < cur.len() implies cur[i] < cur[j] by {
            if j < prev.len() {
                assert(cur[i] == prev[i] && cur[j] == prev[j]);
            } else {
                assert(cur[i] == prev[i]);
                assert(prev[i] < k - 1);
            }
        }
    }
}

/// The columns `0..k` whose height is below the board's, in increasing order.
pub open spec fn open_columns(heights: Seq<usize>, k: int) -> Seq<usize>
    decreases k,
{
    if k <= 0 {
        Seq::empty()
    } else {
        open_columns(heights, k - 1) + (if heights[k - 1] < HEIGHT { seq![(k - 1) as usize] } else { Seq::empty() })
    }
}

pub proof fn lemma_column_count_bound(rows: Seq<Seq<i8>>, col: int, n: int)
    requires
        0 <= n,
    ensures
        column_count(rows, col, n) <= n,
    decreases n,
{
    if n > 0 {
        lemma_column_count_bound(rows, col, n - 1);
    }
}

/// The empty board of a game: every cell zero.
pub open spec fn empty_board() -> Seq<Seq<i8>> {
    Seq::new(HEIGHT as nat, |r: int| Seq::new(WIDTH as nat, |c: int| 0i8))
}

impl ConnectFour {
    /// The evaluation of the state: the cached one, else that of the last cell played,
    /// else a neutral one that is finished once the board is full.
    fn eval(&mut self) -> (e: Eval)
        requires
            old(self)@.wf(),
            old(self)@.can_evaluate(),
        ensures
            e == old(self)@.evaluation(),
            final(self)@ == old(self)@,
    {
        match &self.evaluation_result {
            Some(res) => *res,
            None => match self.last_action {
                None => Eval { score: 0, winner: None, finished: self.set_fields >= TOTAL_FIELDS },
                Some(a) => self.calculate_state(a),
            },
        }
    }

    /// The score of the state; positive favours the first player.
    pub fn evaluate(&mut self) -> (score: i32)
        requires
            old(self)@.wf(),
            old(self)@.can_evaluate(),
        ensures
            score == old(self)@.evaluation().score,
            final(self)@ == old(self)@,
    {
        self.eval().score
    }

    /// Drop the current player's piece into column `*action`.
    pub fn apply(&mut self, action: &usize)
        requires
            old(self)@.wf(),
            *action < WIDTH,
            old(self)@.heights[*action as int] < old(self)@.board.len(),
            old(self)@.set_fields < usize::MAX,
        ensures
            final(self)@ == old(self)@.applied(*action),
            final(self)@.wf(),
    {
        let col = *action;
        let h = self.col_heights[col];
        let ghost pre = self@;
        grid::board_set(&mut self.values, h, col, self.current_player);
        self.col_heights[col] = h + 1;
        self.set_fields = self.set_fields + 1;
        self.last_action = Some(col);
        self.evaluation_result = None;
        proof {
            lemma_sum_heights_update(pre.heights, WIDTH as int, col as int, (h + 1) as usize);
            assert(self@.heights =~= pre.heights.update(col as int, (h + 1) as usize));
            let b = self@.board;
            assert forall|r: int| 0 <= r < b.len() implies (#[trigger] b[r]).len() == self@.columns by {
                if r == h {
                    assert(pre.board[r].len() == pre.columns);
                }
            }
        }
    }

    /// Take back the top piece of column `*action`.
    pub fn revert(&mut self, action: &usize)
        requires
            old(self)@.wf(),
            *action < WIDTH,
            old(self)@.heights[*action as int] >= 1,
            old(self)@.heights[*action as int] <= old(self)@.board.len(),
        ensures
            final(self)@ == old(self)@.reverted(*action),
            final(self)@.wf(),
    {
        let col = *action;
        let h = self.col_heights[col] - 1;
        let ghost pre = self@;
        proof {
            lemma_sum_heights_bound(pre.heights, WIDTH as int, col as int);
        }
        grid::board_set(&mut self.values, h, col, 0);
        self.col_heights[col] = h;
        self.set_fields = self.set_fields - 1;
        self.last_action = None;
        self.evaluation_result = None;
        proof {
            lemma_sum_heights_update(pre.heights, WIDTH as int, col as int, h);
            assert(self@.heights =~= pre.heights.update(col as int, h));
            let b = self@.board;
            assert forall|r: int| 0 <= r < b.len() implies (#[trigger] b[r]).len() == self@.columns by {
                if r == h {
                    assert(pre.board[r].len() == pre.columns);
                }
            }
        }
    }

    /// Whether the game is over in this state.
    pub fn is_finished(&mut self) -> (finished: bool)
        requires
            old(self)@.wf(),
            old(self)@.can_evaluate(),
        ensures
            finished == old(self)@.evaluation().finished,
            final(self)@ == old(self)@,
    {
        self.eval().finished
    }

    /// The columns that still have room, in increasing order.
    pub fn actions(&self) -> (cols: Vec<usize>)
        requires
            self@.wf(),
        ensures
            cols@ == open_columns(self@.heights, WIDTH as int),
            forall|c: int| 0 <= c < WIDTH ==> (cols@.contains(c as usize) <==> #[trigger] self@.heights[c] < HEIGHT),
            forall|i: int| 0 <= i < cols@.len() ==> #[trigger] cols@[i] < WIDTH,
            forall|i: int, j: int| 0 <= i < j < cols@.len() ==> cols@[i] < cols@[j],
    {
        let mut cols: Vec<usize> = Vec::new();
        let mut i: usize = 0;
        while i < WIDTH
            invariant
                i <= WIDTH,
                self@.wf(),
                cols@ == open_columns(self@.heights, i as int),
            decreases WIDTH - i,
        {
            if self.col_heights[i] < HEIGHT {
                cols.push(i);
            }
            proof {
                assert(open_columns(self@.heights, i + 1) == open_columns(self@.heights, i as int) + (if self@.heights[i as int] < HEIGHT { seq![i] } else { Seq::<usize>::empty() }));
            }
            i = i + 1;
        }
        proof { lemma_open_columns_members(self@.heights, WIDTH as int); }
        cols
    }

    /// Hand the move to the other player.
    pub fn swap_players(&mut self)
        requires
            old(self)@.player != i8::MIN,
        ensures
            final(self)@ == old(self)@.swapped(),
    {
        self.current_player = self.current_player * -1;
    }

    /// Whether the state can be evaluated: no column counts as played last, or the last
    /// column holds a piece in one of a game's rows and that piece can be negated.
    pub fn can_evaluate(&self) -> (b: bool)
        requires
            self@.wf(),
        ensures
            b == self@.can_evaluate(),
    {
        match self.last_action {
            None => true,
            Some(col) => {
                if col < WIDTH && 1 <= self.col_heights[col] && self.col_heights[col] <= HEIGHT {
                    grid::board_get(&self.values, self.col_heights[col] - 1, col) != i8::MIN
                } else {
                    false
                }
            },
        }
    }

    /// Whether a piece can be dropped into column `action`: it is a column of the game
    /// and the board has room above its pieces.
    pub fn can_apply(&self, action: usize) -> (b: bool)
        requires
            self@.wf(),
        ensures
            b == (action < WIDTH && self@.heights[action as int] < self@.board.len() && self@.set_fields < usize::MAX),
    {
        action < WIDTH && self.col_heights[action] < grid::board_num_rows(&self.values) && self.set_fields < usize::MAX
    }

    /// Whether the top piece of column `action` can be taken back: it is a column of the
    /// game and holds a piece.
    pub fn can_revert(&self, action: usize) -> (b: bool)
        requires
            self@.wf(),
        ensures
            b == (action < WIDTH && 1 <= self@.heights[action as int] <= self@.board.len()),
    {
        action < WIDTH && 1 <= self.col_heights[action] && self.col_heights[action] <= grid::board_num_rows(&self.values)
    }

    /// The player to move.
    pub fn current_player(&self) -> (p: i8)
        ensures
            p == self@.player,
    {
        self.current_player
    }

    /// The height of column `col`: how many pieces it holds.
    pub fn col_height(&self, col: usize) -> (h: usize)
        requires
            col < WIDTH,
            self@.wf(),
        ensures
            h == self@.heights[col as int],
    {
        self.col_heights[col]
    }

    /// The state on the board `values`, or on an empty board where none is given, with
    /// `current_player` to move: each column's height is the number of its cells that hold a piece.
    pub fn new(values: Option<Array2D<i8>>, current_player: i8) -> (p: ConnectFour)
        requires
            values matches Some(v) ==> grid::board_fits(grid::board_rows(v), grid::board_columns(v), HEIGHT as nat, WIDTH as nat),
        ensures
            p@.wf(),
            p@.board == (match values {
                Some(v) => grid::board_rows(v),
                None => empty_board(),
            }),
            p@.columns == (match values {
                Some(v) => grid::board_columns(v),
                None => WIDTH as nat,
            }),
            forall|c: int| 0 <= c < WIDTH ==> #[trigger] p@.heights[c] == column_count(p@.board, c, HEIGHT as int),
            p@.player == current_player,
            p@.last_action is None,
            p@.cached is None,
    {
        let board = match values {
            Some(v) => v,
            None => grid::board_filled_with(0, HEIGHT, WIDTH),
        };
        let mut p = ConnectFour {
            current_player: current_player,
            values: board,
            col_heights: [0; WIDTH],
            evaluation_result: None,
            set_fields: 0,
            last_action: None,
        };
        let ghost rows = p@.board;
        proof {
            assert(p@.heights =~= seq![0usize, 0, 0, 0, 0, 0, 0]);
            assert(rows.len() >= HEIGHT);
            if values is None {
                assert forall|r: int| 0 <= r < rows.len() implies (#[trigger] rows[r]).len() == p@.columns by {}
            }
            reveal_with_fuel(sum_heights, 8);
        }
        let mut row: usize = 0;
        while row < HEIGHT
            invariant
                row <= HEIGHT,
                p@.wf(),
                rows == p@.board,
                p@.player == current_player,
                p@.last_action is None,
                p@.cached is None,
                forall|c: int| 0 <= c < WIDTH ==> #[trigger] p@.heights[c] == column_count(rows, c, row as int),
            decreases HEIGHT - row,
        {
            let mut col: usize = 0;
            while col < WIDTH
                invariant
                    row < HEIGHT,
                    col <= WIDTH,
                    p@.wf(),
                    rows == p@.board,
                    p@.player == current_player,
                    p@.last_action is None,
                    p@.cached is None,
                    forall|c: int| 0 <= c < col ==> #[trigger] p@.heights[c] == column_count(rows, c, row + 1),
                    forall|c: int| col <= c < WIDTH ==> #[trigger] p@.heights[c] == column_count(rows, c, row as int),
                decreases WIDTH - col,
            {
                let ghost pre = p@;
                proof {
                    lemma_column_count_bound(rows, col as int, row as int);
                    lemma_sum_heights_bound(pre.heights, WIDTH as int, col as int);
                    assert forall|c: int| 0 <= c < WIDTH implies #[trigger] pre.heights[c] <= HEIGHT by {
                        lemma_column_count_bound(rows, c, row as int);
                        lemma_column_count_bound(rows, c, row + 1);
                    }
                    lemma_sum_heights_le(pre.heights, WIDTH as int);
                }
                if grid::board_get(&p.values, row, col) != 0 {
                    p.col_heights[col] = p.col_heights[col] + 1;
                    p.set_fields = p.set_fields + 1;
                    proof {
                        lemma_sum_heights_update(pre.heights, WIDTH as int, col as int, (pre.heights[col as int] + 1) as usize);
                        assert(p@.heights =~= pre.heights.update(col as int, (pre.heights[col as int] + 1) as usize));
                    }
                }
                col = col + 1;
            }
            row = row + 1;
        }
        p
    }
}

/// Heights of at most a board's height each add up to at most the cells of a board.
pub proof fn lemma_sum_heights_le(h: Seq<usize>, k: int)
    requires
        0 <= k <= h.len(),
        forall|c: int| 0 <= c < k ==> #[trigger] h[c] <= HEIGHT,
    ensures
        sum_heights(h, k) <= HEIGHT * k,
    decreases k,
{
    if k > 0 {
        lemma_sum_heights_le(h, k - 1);
    }
}

/// The first four in a row of `val` through `(row, col)`, looked for on the rising
/// diagonal, then the falling diagonal, then the row, then the column.
pub open spec fn winning_line(rows: Seq<Seq<i8>>, val: i8, row: int, col: int) -> Option<Seq<(usize, usize)>> {
    let rd = grid::first_run(rows, val, lines::rising_diagonal(row, col, WIDTH as int, HEIGHT as int), 0);
    let ld = grid::first_run(rows, val, lines::falling_diagonal(row, col, WIDTH as int, HEIGHT as int), 0);
    let h = grid::first_run(rows, val, lines::horizontal_line(row, col, WIDTH as int), 0);
    let v = grid::first_run(rows, val, vertical_line(row, col), 0);
    if rd is Some { rd } else if ld is Some { ld } else if h is Some { h } else { v }
}

/// The column heights of a board: how many cells of each column hold a piece.
pub open spec fn board_heights(rows: Seq<Seq<i8>>) -> Seq<usize> {
    Seq::new(WIDTH as nat, |c: int| column_count(rows, c, HEIGHT as int) as usize)
}

/// A won position has a four in a row through the cell played last.
pub proof fn lemma_win_has_line(rows: Seq<Seq<i8>>, row: int, col: int)
    requires
        0 <= row < HEIGHT,
        0 <= col < WIDTH,
        has_four(line_scores(rows, rows[row][col], cell_lines(row, col))),
    ensures
        winning_line(rows, rows[row][col], row, col) is Some,
{
    let val = rows[row][col];
    let ls = cell_lines(row, col);
    let sc = line_scores(rows, val, ls);
    let k = choose|k: int| 0 <= k < sc.len() && sc[k] > 3;
    let l = ls[k];
    let vs = grid::values_on(rows, l);
    assert(sc[k] == lines::best_window(val, vs, l.len() - 3));
    lines::lemma_best_window_full(val, vs, l.len() - 3);
    let st = choose|st: int| 0 <= st < l.len() - 3 && #[trigger] lines::four_equal(vs, val, st);
    assert(grid::run_of_four(rows, val, l, st));
    grid::lemma_first_run_finds(rows, val, l, 0, st);
    lines::lemma_lines_through_member(vertical_line(row, col), row, col, WIDTH as int, HEIGHT as int, k);
}

/// The row of the top piece of column `action`, counting the pieces of the column.
pub open spec fn action_row(rows: Seq<Seq<i8>>, action: int) -> int {
    column_count(rows, action, HEIGHT as int) - 1
}

/// The evaluation of the board after column `action` was played last.
pub open spec fn action_eval(rows: Seq<Seq<i8>>, action: int) -> Eval {
    position_eval(rows, sum_heights(board_heights(rows), WIDTH as int) as int, action_row(rows, action), action)
}

/// The four cells that won the board after column `action` was played last, if it was won.
pub open spec fn action_cells(rows: Seq<Seq<i8>>, action: int) -> Option<Seq<(usize, usize)>> {
    match action_eval(rows, action).winner {
        None => None,
        Some(val) => winning_line(rows, val, action_row(rows, action), action),
    }
}

/// The evaluation of the position on the board `state.0` after column `action` was
/// played, with `state.1` to move; where it is won, the four cells that won it.
#[verifier::rlimit(40)]
#[verifier::spinoff_prover]
pub fn evaluate_action(state: (Array2D<i8>, i8), action: usize) -> (res: EvaluationResult)
    requires
        grid::board_fits(grid::board_rows(state.0), grid::board_columns(state.0), HEIGHT as nat, WIDTH as nat),
        action < WIDTH,
        column_count(grid::board_rows(state.0), action as int, HEIGHT as int) >= 1,
        grid::board_rows(state.0)[column_count(grid::board_rows(state.0), action as int, HEIGHT as int) - 1][action as int] != i8::MIN,
    ensures
        res.eval == action_eval(grid::board_rows(state.0), action as int),
        match res.winning_cells {
            Some(cells) => action_cells(grid::board_rows(state.0), action as int) == Some(cells@),
            None => action_cells(grid::board_rows(state.0), action as int) is None,
        },
{
    let (values, current_player) = state;
    let mut g = ConnectFour::new(Some(values), current_player);
    proof {
        lemma_column_count_bound(g@.board, action as int, HEIGHT as int);
        assert(g@.heights =~= board_heights(g@.board));
    }
    g.last_action = Some(action);
    let result = g.eval();
    let winning_cells = match result.winner {
        None => None,
        Some(val) => {
            let row = g.col_heights[action] - 1;
            let ghost rows = g@.board;
            proof {
                lemma_cell_lines_inside(row as int, action as int);
                assert(has_four(line_scores(rows, val, cell_lines(row as int, action as int))));
                lemma_win_has_line(rows, row as int, action as int);
                let rd = lines::rising_diagonal(row as int, action as int, WIDTH as int, HEIGHT as int);
                let ld = lines::falling_diagonal(row as int, action as int, WIDTH as int, HEIGHT as int);
                assert(lines::line_inside(rd, HEIGHT as nat, WIDTH as nat));
                assert(lines::line_inside(ld, HEIGHT as nat, WIDTH as nat));
                assert(lines::line_inside(vertical_line(row as int, action as int), HEIGHT as nat, WIDTH as nat));
                assert(lines::line_inside(lines::horizontal_line(row as int, action as int, WIDTH as int), HEIGHT as nat, WIDTH as nat));
            }
            let found = match four_in(&g.values, val, rdiag_tup_seq(row, action)) {
                Some(cells) => Some(cells),
                None => match four_in(&g.values, val, ldiag_tup_seq(row, action)) {
                    Some(cells) => Some(cells),
                    None => match four_in(&g.values, val, h_tup_seq(row, action)) {
                        Some(cells) => Some(cells),
                        None => four_in(&g.values, val, v_tup_seq(row, action)),
                    },
                },
            };
            found
        },
    };
    EvaluationResult { eval: result, winning_cells }
}

/// Whether a board holds the six rows and seven columns of a game (it may hold more):
/// the boards that `ConnectFour::new` and `evaluate_action` accept.
pub fn fits_game(values: &Array2D<i8>) -> (fits: bool)
    ensures
        fits == grid::board_fits(grid::board_rows(*values), grid::board_columns(*values), HEIGHT as nat, WIDTH as nat),
{
    let rows = grid::board_num_rows(values);
    let columns = grid::board_num_columns(values);
    rows >= HEIGHT && columns >= WIDTH
}

/// The first four in a row of `val` on a line of the board.
fn four_in(values: &Array2D<i8>, val: i8, line: Vec<(usize, usize)>) -> (run: Option<Vec<(usize, usize)>>)
    requires
        grid::board_fits(grid::board_rows(*values), grid::board_columns(*values), HEIGHT as nat, WIDTH as nat),
        lines::line_inside(line@, HEIGHT as nat, WIDTH as nat),
    ensures
        match run {
            Some(r) => grid::first_run(grid::board_rows(*values), val, line@, 0) == Some(r@),
            None => grid::first_run(grid::board_rows(*values), val, line@, 0) is None,
        },
{
    grid::four_in_line(values, val, &line)
}

/// Taking back a move restores the position it was made in: the board, the column
/// heights, the number of cells taken and the player to move; only the memory of the last
/// column played is gone. This holds where the cell the piece landed on was empty before.
pub proof fn lemma_revert_undoes_apply(s: ConnectFourView, col: usize)
    requires
        s.wf(),
        col < WIDTH,
        s.heights[col as int] < s.board.len(),
        s.board[s.heights[col as int] as int][col as int] == 0,
    ensures
        s.applied(col).reverted(col) == (ConnectFourView { last_action: None, cached: None, ..s }),
{
    let h = s.heights[col as int] as int;
    let t = s.applied(col).reverted(col);
    assert(t.heights =~= s.heights);
    assert(t.board[h] =~= s.board[h]);
    assert(t.board =~= s.board);
}

/// Handing the move over twice gives it back to the same player.
pub proof fn lemma_swap_twice(s: ConnectFourView)
    requires
        s.player != i8::MIN,
    ensures
        s.swapped().swapped() == s,
{
}

/// The cells of a winning line are four cells that all hold the winner's piece.
pub proof fn lemma_winning_line_cells(rows: Seq<Seq<i8>>, val: i8, row: int, col: int)
    ensures
        winning_line(rows, val, row, col) matches Some(run) ==> {
            &&& run.len() == 4
            &&& forall|t: int| 0 <= t < 4 ==> #[trigger] rows[run[t].0 as int][run[t].1 as int] == val
        },
{
    grid::lemma_first_run_cells(rows, val, lines::rising_diagonal(row, col, WIDTH as int, HEIGHT as int), 0);
    grid::lemma_first_run_cells(rows, val, lines::falling_diagonal(row, col, WIDTH as int, HEIGHT as int), 0);
    grid::lemma_first_run_cells(rows, val, lines::horizontal_line(row, col, WIDTH as int), 0);
    grid::lemma_first_run_cells(rows, val, vertical_line(row, col), 0);
}

proof fn lemma_scores_bounds(sc: Seq<nat>, k: int)
    requires
        0 <= k <= sc.len(),
        forall|j: int| 0 <= j < k ==> #[trigger] sc[j] <= 3,
    ensures
        sum_scores(sc, k) <= 3 * k,
        count_scored(sc, k) <= sum_scores(sc, k),
        count_scored(sc, k) <= k,
    decreases k,
{
    if k > 0 {
        lemma_scores_bounds(sc, k - 1);
    }
}

/// On a board of pieces `1`, `-1` and empty cells `0`, every score lies between
/// `-MAX_SCORE` and `MAX_SCORE`.
pub proof fn lemma_score_range(rows: Seq<Seq<i8>>, set_fields: int, row: int, col: int)
    requires
        -1 <= rows[row][col] <= 1,
    ensures
        -MAX_SCORE <= position_eval(rows, set_fields, row, col).score <= MAX_SCORE,
{
    let val = rows[row][col];
    let ls = cell_lines(row, col);
    let sc = line_scores(rows, val, ls);
    if !has_four(sc) {
        assert(ls.len() <= 4);
        assert(forall|j: int| 0 <= j < sc.len() ==> #[trigger] sc[j] <= 3);
        lemma_scores_bounds(sc, sc.len() as int);
        let n = count_scored(sc, sc.len() as int);
        let total = sum_scores(sc, sc.len() as int) - (if n > 1 { n - 1 } else { 0 });
        assert(0 <= total <= 12);
        assert(-12 <= total * val <= 12) by (nonlinear_arith)
            requires
                0 <= total <= 12,
                -1 <= val <= 1,
        ;
    }
}

proof fn lemma_open_columns_empty(h: Seq<usize>, k: int)
    requires
        0 <= k <= h.len(),
        open_columns(h, k).len() == 0,
    ensures
        forall|c: int| 0 <= c < k ==> #[trigger] h[c] >= HEIGHT,
    decreases k,
{
    if k > 0 {
        lemma_open_columns_empty(h, k - 1);
    }
}

proof fn lemma_sum_heights_ge(h: Seq<usize>, k: int)
    requires
        0 <= k <= h.len(),
        forall|c: int| 0 <= c < k ==> #[trigger] h[c] >= HEIGHT,
    ensures
        sum_heights(h, k) >= HEIGHT * k,
    decreases k,
{
    if k > 0 {
        lemma_sum_heights_ge(h, k - 1);
    }
}

/// Where no column has room left the game is over: a state without actions is finished.
pub proof fn lemma_no_actions_finished(s: ConnectFourView)
    requires
        s.wf(),
        open_columns(s.heights, WIDTH as int).len() == 0,
    ensures
        s.evaluation().finished,
{
    lemma_open_columns_empty(s.heights, WIDTH as int);
    lemma_sum_heights_ge(s.heights, WIDTH as int);
}

/// A run found on a line of the board lies on the board.
proof fn lemma_run_inside(rows: Seq<Seq<i8>>, val: i8, line: Seq<(usize, usize)>)
    requires
        lines::line_inside(line, HEIGHT as nat, WIDTH as nat),
    ensures
        grid::first_run(rows, val, line, 0) matches Some(run) ==> lines::line_inside(run, HEIGHT as nat, WIDTH as nat),
{
    grid::lemma_first_run_cells(rows, val, line, 0);
    if let Some(run) = grid::first_run(rows, val, line, 0) {
        let j = choose|j: int| 0 <= j && j + 4 <= line.len() && run == #[trigger] line.subrange(j, j + 4);
        assert forall|t: int| 0 <= t < run.len() implies (#[trigger] run[t]).0 < HEIGHT && run[t].1 < WIDTH by {
            assert(run[t] == line[j + t]);
        }
    }
}

/// The cells that won a board are four cells on the board that all hold the winner's piece.
pub proof fn lemma_action_cells(rows: Seq<Seq<i8>>, action: int)
    requires
        0 <= action < WIDTH,
        1 <= column_count(rows, action, HEIGHT as int) <= HEIGHT,
    ensures
        action_cells(rows, action) matches Some(run) ==> {
            &&& run.len() == 4
            &&& lines::line_inside(run, HEIGHT as nat, WIDTH as nat)
            &&& action_eval(rows, action).winner matches Some(val)
            &&& forall|t: int| 0 <= t < 4 ==> #[trigger] rows[run[t].0 as int][run[t].1 as int] == val
        },
{
    let row = action_row(rows, action);
    if let Some(val) = action_eval(rows, action).winner {
        lemma_winning_line_cells(rows, val, row, action);
        let rd = lines::rising_diagonal(row, action, WIDTH as int, HEIGHT as int);
        let ld = lines::falling_diagonal(row, action, WIDTH as int, HEIGHT as int);
        let h = lines::horizontal_line(row, action, WIDTH as int);
        let v = vertical_line(row, action);
        assert(lines::line_inside(v, HEIGHT as nat, WIDTH as nat));
        lines::lemma_lines_through_inside(v, row, action, WIDTH as int, HEIGHT as int);
        let ldm = lines::rising_diagonal(row, WIDTH - 1 - action, WIDTH as int, HEIGHT as int);
        assert(lines::line_inside(rd, HEIGHT as nat, WIDTH as nat));
        assert(lines::line_inside(ldm, HEIGHT as nat, WIDTH as nat));
        assert(lines::line_inside(ld, HEIGHT as nat, WIDTH as nat));
        assert(lines::line_inside(h, HEIGHT as nat, WIDTH as nat));
        lemma_run_inside(rows, val, rd);
        lemma_run_inside(rows, val, ld);
        lemma_run_inside(rows, val, h);
        lemma_run_inside(rows, val, v);
    }
}

/// A column with a piece among its first `n` cells counts at least one piece there.
pub proof fn lemma_column_count_positive(rows: Seq<Seq<i8>>, col: int, n: int, r: int)
    requires
        0 <= r < n,
        rows[r][col] != 0,
    ensures
        column_count(rows, col, n) >= 1,
    decreases n,
{
    if r < n - 1 {
        lemma_column_count_positive(rows, col, n - 1, r);
    }
}

/// The `t`-th of four cells in a straight line through `(row, col)`, which is the `k`-th:
/// up its column for the direction `0`, along its row for `1`, up its rising diagonal for
/// `2` and up its falling diagonal for `3`.
pub open spec fn line_cell(row: int, col: int, dir: int, k: int, t: int) -> (int, int) {
    if dir == 0 {
        (row - k + t, col)
    } else if dir == 1 {
        (row, col - k + t)
    } else if dir == 2 {
        (row - k + t, col - k + t)
    } else {
        (row - k + t, col + k - t)
    }
}

/// Four cells in a straight line, `(row, col)` among them, all on the board and all
/// holding the piece on `(row, col)`.
pub open spec fn four_in_a_row(rows: Seq<Seq<i8>>, row: int, col: int, dir: int, k: int) -> bool {
    &&& 0 <= dir < 4
    &&& 0 <= k < 4
    &&& forall|t: int| 0 <= t < 4 ==> {
        let p = #[trigger] line_cell(row, col, dir, k, t);
        &&& 0 <= p.0 < HEIGHT
        &&& 0 <= p.1 < WIDTH
        &&& rows[p.0][p.1] == rows[row][col]
    }
}

/// Where four cells of a line from position `i0` on hold `val`, the line scores four.
pub proof fn lemma_line_scores_four(rows: Seq<Seq<i8>>, val: i8, l: Seq<(usize, usize)>, i0: int)
    requires
        val != 0,
        0 <= i0,
        i0 + 4 <= l.len(),
        forall|t: int| 0 <= t < 4 ==> #[trigger] rows[l[i0 + t].0 as int][l[i0 + t].1 as int] == val,
    ensures
        lines::best_window(val, grid::values_on(rows, l), l.len() - 3) >= 4,
{
    let vs = grid::values_on(rows, l);
    assert forall|j: int| i0 <= j < i0 + 4 implies #[trigger] vs[j] == val by {
        assert(rows[l[i0 + (j - i0)].0 as int][l[i0 + (j - i0)].1 as int] == val);
    }
    assert(lines::four_equal(vs, val, i0));
    lines::lemma_window_four(val, vs, i0);
    lines::lemma_best_window_ge(val, vs, l.len() - 3, i0);
}

/// A line through the cell that scores four makes the position won by the cell's piece.
proof fn lemma_scoring_line_wins(rows: Seq<Seq<i8>>, set_fields: int, row: int, col: int, l: Seq<(usize, usize)>)
    requires
        cell_lines(row, col).contains(l),
        lines::best_window(rows[row][col], grid::values_on(rows, l), l.len() - 3) >= 4,
    ensures
        position_eval(rows, set_fields, row, col).winner == Some(rows[row][col]),
{
    let val = rows[row][col];
    let ls = cell_lines(row, col);
    let sc = line_scores(rows, val, ls);
    let k = choose|k: int| 0 <= k < ls.len() && ls[k] == l;
    assert(sc[k] > 3);
}

proof fn lemma_column_win(rows: Seq<Seq<i8>>, set_fields: int, row: int, col: int, k: int)
    requires
        0 <= row < HEIGHT,
        0 <= col < WIDTH,
        rows[row][col] != 0,
        four_in_a_row(rows, row, col, 0, k),
    ensures
        position_eval(rows, set_fields, row, col).winner == Some(rows[row][col]),
{
    let val = rows[row][col];
    let v = vertical_line(row, col);
    lines::lemma_lines_through_contains(v, row, col, WIDTH as int, HEIGHT as int);
    assert(line_cell(row, col, 0, k, 0).0 >= 0);
    assert(line_cell(row, col, 0, k, 3).0 < HEIGHT);
    let lo = if row >= 3 { row - 3 } else { 0 };
    let i0 = row - k - lo;
    assert forall|t: int| 0 <= t < 4 implies #[trigger] rows[v[i0 + t].0 as int][v[i0 + t].1 as int] == val by {
        assert(line_cell(row, col, 0, k, t) == (row - k + t, col));
    }
    lemma_line_scores_four(rows, val, v, i0);
    lemma_scoring_line_wins(rows, set_fields, row, col, v);
}

proof fn lemma_row_win(rows: Seq<Seq<i8>>, set_fields: int, row: int, col: int, k: int)
    requires
        0 <= row < HEIGHT,
        0 <= col < WIDTH,
        rows[row][col] != 0,
        four_in_a_row(rows, row, col, 1, k),
    ensures
        position_eval(rows, set_fields, row, col).winner == Some(rows[row][col]),
{
    let val = rows[row][col];
    let v = vertical_line(row, col);
    lines::lemma_lines_through_contains(v, row, col, WIDTH as int, HEIGHT as int);
    assert(line_cell(row, col, 1, k, 0).1 >= 0);
    assert(line_cell(row, col, 1, k, 3).1 < WIDTH);
    let h = lines::horizontal_line(row, col, WIDTH as int);
    let lo = if col >= 3 { col - 3 } else { 0 };
    let i0 = col - k - lo;
    assert forall|t: int| 0 <= t < 4 implies #[trigger] rows[h[i0 + t].0 as int][h[i0 + t].1 as int] == val by {
        assert(line_cell(row, col, 1, k, t) == (row, col - k + t));
    }
    lemma_line_scores_four(rows, val, h, i0);
    lemma_scoring_line_wins(rows, set_fields, row, col, h);
}

/// Where four cells up the rising diagonal through `(row, col)`, the `k`-th of them at
/// `(row, col)`, lie on the board, they are four consecutive cells of its rising diagonal line.
proof fn lemma_rising_cells(row: int, col: int, k: int) -> (i0: int)
    requires
        0 <= k < 4,
        0 <= row - k,
        row - k + 3 < HEIGHT,
        0 <= col - k,
        col - k + 3 < WIDTH,
    ensures
        0 <= i0,
        i0 + 4 <= lines::rising_diagonal(row, col, WIDTH as int, HEIGHT as int).len(),
        forall|t: int| 0 <= t < 4 ==> #[trigger] lines::rising_diagonal(row, col, WIDTH as int, HEIGHT as int)[i0 + t]
            == ((row - k + t) as usize, (col - k + t) as usize),
{
    let d = lines::diagonal_back(row, col);
    let i0 = d - k;
    assert(lines::diagonal_steps(row, col, WIDTH as int, HEIGHT as int) >= i0 + 4);
    i0
}

proof fn lemma_rising_win(rows: Seq<Seq<i8>>, set_fields: int, row: int, col: int, k: int)
    requires
        0 <= row < HEIGHT,
        0 <= col < WIDTH,
        rows[row][col] != 0,
        four_in_a_row(rows, row, col, 2, k),
    ensures
        position_eval(rows, set_fields, row, col).winner == Some(rows[row][col]),
{
    let val = rows[row][col];
    let v = vertical_line(row, col);
    lines::lemma_lines_through_contains(v, row, col, WIDTH as int, HEIGHT as int);
    assert(line_cell(row, col, 2, k, 0) == (row - k, col - k));
    assert(line_cell(row, col, 2, k, 3) == (row - k + 3, col - k + 3));
    let rd = lines::rising_diagonal(row, col, WIDTH as int, HEIGHT as int);
    let i0 = lemma_rising_cells(row, col, k);
    assert forall|t: int| 0 <= t < 4 implies #[trigger] rows[rd[i0 + t].0 as int][rd[i0 + t].1 as int] == val by {
        assert(line_cell(row, col, 2, k, t) == (row - k + t, col - k + t));
        assert(rd[i0 + t] == ((row - k + t) as usize, (col - k + t) as usize));
    }
    lemma_line_scores_four(rows, val, rd, i0);
    lemma_scoring_line_wins(rows, set_fields, row, col, rd);
}

/// Where four cells up the falling diagonal through `(row, col)`, the `k`-th of them at
/// `(row, col)`, lie on the board, they are four consecutive cells of its falling diagonal line.
proof fn lemma_falling_cells(row: int, col: int, k: int) -> (i0: int)
    requires
        0 <= k < 4,
        0 <= row - k,
        row - k + 3 < HEIGHT,
        col + k < WIDTH,
        0 <= col + k - 3,
    ensures
        0 <= i0,
        i0 + 4 <= lines::falling_diagonal(row, col, WIDTH as int, HEIGHT as int).len(),
        forall|t: int| 0 <= t < 4 ==> #[trigger] lines::falling_diagonal(row, col, WIDTH as int, HEIGHT as int)[i0 + t]
            == ((row - k + t) as usize, (col + k - t) as usize),
{
    let mc = WIDTH - 1 - col;
    let rdm = lines::rising_diagonal(row, mc, WIDTH as int, HEIGHT as int);
    let ld = lines::falling_diagonal(row, col, WIDTH as int, HEIGHT as int);
    let d = lines::diagonal_back(row, mc);
    let i0 = d - k;
    assert(lines::diagonal_steps(row, mc, WIDTH as int, HEIGHT as int) >= i0 + 4);
    assert forall|t: int| 0 <= t < 4 implies #[trigger] ld[i0 + t] == ((row - k + t) as usize, (col + k - t) as usize) by {
        assert(rdm[i0 + t] == ((row - d + i0 + t) as usize, (mc - d + i0 + t) as usize));
    }
    i0
}

proof fn lemma_falling_win(rows: Seq<Seq<i8>>, set_fields: int, row: int, col: int, k: int)
    requires
        0 <= row < HEIGHT,
        0 <= col < WIDTH,
        rows[row][col] != 0,
        four_in_a_row(rows, row, col, 3, k),
    ensures
        position_eval(rows, set_fields, row, col).winner == Some(rows[row][col]),
{
    let val = rows[row][col];
    let v = vertical_line(row, col);
    lines::lemma_lines_through_contains(v, row, col, WIDTH as int, HEIGHT as int);
    assert(line_cell(row, col, 3, k, 0) == (row - k, col + k));
    assert(line_cell(row, col, 3, k, 3) == (row - k + 3, col + k - 3));
    let ld = lines::falling_diagonal(row, col, WIDTH as int, HEIGHT as int);
    let i0 = lemma_falling_cells(row, col, k);
    assert forall|t: int| 0 <= t < 4 implies #[trigger] rows[ld[i0 + t].0 as int][ld[i0 + t].1 as int] == val by {
        assert(line_cell(row, col, 3, k, t) == (row - k + t, col + k - t));
        assert(ld[i0 + t] == ((row - k + t) as usize, (col + k - t) as usize));
    }
    lemma_line_scores_four(rows, val, ld, i0);
    lemma_scoring_line_wins(rows, set_fields, row, col, ld);
}

/// Every four in a row through the cell played last is seen: where the cell and three more
/// cells in a straight line with it (in its column, its row or one of its diagonals) all
/// hold its piece, the position is won by that piece.
pub proof fn lemma_four_in_a_row_wins(rows: Seq<Seq<i8>>, set_fields: int, row: int, col: int, dir: int, k: int)
    requires
        0 <= row < HEIGHT,
        0 <= col < WIDTH,
        rows[row][col] != 0,
        four_in_a_row(rows, row, col, dir, k),
    ensures
        position_eval(rows, set_fields, row, col).winner == Some(rows[row][col]),
{
    if dir == 0 {
        lemma_column_win(rows, set_fields, row, col, k);
    } else if dir == 1 {
        lemma_row_win(rows, set_fields, row, col, k);
    } else if dir == 2 {
        lemma_rising_win(rows, set_fields, row, col, k);
    } else {
        lemma_falling_win(rows, set_fields, row, col, k);
    }
}

proof fn lemma_sum_heights_full(h: Seq<usize>, k: int)
    requires
        0 <= k <= h.len(),
        forall|c: int| 0 <= c < k ==> #[trigger] h[c] <= HEIGHT,
        sum_heights(h, k) >= HEIGHT * k,
    ensures
        forall|c: int| 0 <= c < k ==> #[trigger] h[c] == HEIGHT,
    decreases k,
{
    if k > 0 {
        lemma_sum_heights_le(h, k - 1);
        lemma_sum_heights_full(h, k - 1);
    }
}

proof fn lemma_open_columns_full(h: Seq<usize>, k: int)
    requires
        0 <= k <= h.len(),
        forall|c: int| 0 <= c < k ==> #[trigger] h[c] >= HEIGHT,
    ensures
        open_columns(h, k).len() == 0,
    decreases k,
{
    if k > 0 {
        lemma_open_columns_full(h, k - 1);
    }
}

/// A game over that nobody won leaves no column with room: where no column holds more
/// than a board's height, a finished position without a winner has no actions. (A won
/// position is finished with room left.)
pub proof fn lemma_drawn_no_actions(s: ConnectFourView)
    requires
        s.wf(),
        forall|c: int| 0 <= c < WIDTH ==> #[trigger] s.heights[c] <= HEIGHT,
        s.evaluation().finished,
        s.evaluation().winner is None,
    ensures
        open_columns(s.heights, WIDTH as int).len() == 0,
{
    lemma_sum_heights_full(s.heights, WIDTH as int);
    lemma_open_columns_full(s.heights, WIDTH as int);
}

/// A column whose first `m` cells hold pieces and whose cells from `m` to `n` are empty
/// counts `m` pieces among its first `n` cells.
pub proof fn lemma_column_count_stacked(rows: Seq<Seq<i8>>, col: int, m: int, n: int)
    requires
        0 <= m <= n,
        forall|r: int| 0 <= r < m ==> #[trigger] rows[r][col] != 0,
        forall|r: int| m <= r < n ==> #[trigger] rows[r][col] == 0,
    ensures
        column_count(rows, col, n) == m,
    decreases n,
{
    if n > m {
        lemma_column_count_stacked(rows, col, m, n - 1);
    } else if n > 0 {
        lemma_column_count_stacked(rows, col, m - 1, n - 1);
    }
}


/// A won position scores `MAX_SCORE` for its winner and is over, whatever the line or the
/// column of the win; the winner is the piece played last. A position nobody won is over
/// exactly when every cell of the board is taken.
pub proof fn lemma_won_scores_max(rows: Seq<Seq<i8>>, set_fields: int, row: int, col: int)
    ensures
        position_eval(rows, set_fields, row, col).winner matches Some(v) ==> {
            &&& v == rows[row][col]
            &&& position_eval(rows, set_fields, row, col).score == MAX_SCORE * v
            &&& position_eval(rows, set_fields, row, col).finished
        },
        position_eval(rows, set_fields, row, col).winner is None
            ==> (position_eval(rows, set_fields, row, col).finished <==> set_fields >= TOTAL_FIELDS),
{
}

/// The cells `0..n` of column `col` all hold a piece exactly when the column counts `n` of them.
proof fn lemma_column_count_full(rows: Seq<Seq<i8>>, col: int, n: int)
    requires
        0 <= n,
    ensures
        column_count(rows, col, n) == n <==> forall|r: int| 0 <= r < n ==> #[trigger] rows[r][col] != 0,
    decreases n,
{
    if n > 0 {
        lemma_column_count_full(rows, col, n - 1);
        lemma_column_count_bound(rows, col, n - 1);
        if column_count(rows, col, n) == n {
            assert(column_count(rows, col, n - 1) == n - 1);
        }
    }
}

/// The pieces on a board add up to a full board's worth exactly when every cell of the
/// board's six rows and seven columns holds a piece.
pub proof fn lemma_board_full(rows: Seq<Seq<i8>>)
    ensures
        sum_heights(board_heights(rows), WIDTH as int) >= TOTAL_FIELDS
            <==> forall|r: int, c: int| 0 <= r < HEIGHT && 0 <= c < WIDTH ==> #[trigger] rows[r][c] != 0,
{
    let h = board_heights(rows);
    assert forall|c: int| 0 <= c < WIDTH implies #[trigger] h[c] <= HEIGHT
        && (h[c] == HEIGHT <==> forall|r: int| 0 <= r < HEIGHT ==> #[trigger] rows[r][c] != 0) by {
        lemma_column_count_bound(rows, c, HEIGHT as int);
        lemma_column_count_full(rows, c, HEIGHT as int);
    }
    if sum_heights(h, WIDTH as int) >= TOTAL_FIELDS {
        lemma_sum_heights_full(h, WIDTH as int);
        assert forall|r: int, c: int| 0 <= r < HEIGHT && 0 <= c < WIDTH implies #[trigger] rows[r][c] != 0 by {
            assert(h[c] == HEIGHT);
        }
    }
    if forall|r: int, c: int| 0 <= r < HEIGHT && 0 <= c < WIDTH ==> #[trigger] rows[r][c] != 0 {
        assert forall|c: int| 0 <= c < WIDTH implies #[trigger] h[c] >= HEIGHT by {
            assert forall|r: int| 0 <= r < HEIGHT implies #[trigger] rows[r][c] != 0 by {
                assert(rows[r][c] != 0);
            }
        }
        lemma_sum_heights_ge(h, WIDTH as int);
    }
}

/// The board after a move is over exactly when the move won it or every cell of the board
/// holds a piece; a won board scores `MAX_SCORE` for the piece played last.
pub proof fn lemma_action_eval_finished(rows: Seq<Seq<i8>>, action: int)
    ensures
        action_eval(rows, action).finished <==> (action_eval(rows, action).winner is Some
            || forall|r: int, c: int| 0 <= r < HEIGHT && 0 <= c < WIDTH ==> #[trigger] rows[r][c] != 0),
        action_eval(rows, action).winner matches Some(v) ==> {
            &&& v == rows[action_row(rows, action)][action]
            &&& action_eval(rows, action).score == MAX_SCORE * v
        },
{
    lemma_board_full(rows);
    lemma_won_scores_max(rows, sum_heights(board_heights(rows), WIDTH as int) as int, action_row(rows, action), action);
}

/// A state's evaluation, where a column was played last, is that of its top piece: won
/// positions score `MAX_SCORE` for the winner, and the game is over exactly when it is won
/// or every column is full.
pub proof fn lemma_evaluation_finished(s: ConnectFourView)
    requires
        s.wf(),
        forall|c: int| 0 <= c < WIDTH ==> #[trigger] s.heights[c] <= HEIGHT,
    ensures
        s.evaluation().winner matches Some(v) ==> s.evaluation().score == MAX_SCORE * v && s.evaluation().finished,
        s.evaluation().finished <==> (s.evaluation().winner is Some
            || forall|c: int| 0 <= c < WIDTH ==> #[trigger] s.heights[c] == HEIGHT),
{
    match s.last_action {
        Some(col) => lemma_won_scores_max(s.board, s.set_fields as int, s.last_row(col as int), col as int),
        None => {},
    }
    if s.set_fields >= TOTAL_FIELDS {
        lemma_sum_heights_full(s.heights, WIDTH as int);
    }
    if forall|c: int| 0 <= c < WIDTH ==> #[trigger] s.heights[c] == HEIGHT {
        lemma_sum_heights_ge(s.heights, WIDTH as int);
    }
}


proof fn lemma_column_window_four(rows: Seq<Seq<i8>>, row: int, col: int, l: Seq<(usize, usize)>, st: int)
    requires
        0 <= row < HEIGHT,
        0 <= col < WIDTH,
        l == vertical_line(row, col),
        0 <= st,
        st + 4 <= l.len(),
        forall|t: int| 0 <= t < 4 ==> #[trigger] rows[l[st + t].0 as int][l[st + t].1 as int] == rows[row][col],
    ensures
        four_in_a_row(rows, row, col, 0, row - (if row >= 3 { row - 3 } else { 0 }) - st),
{
    let val = rows[row][col];
    let k = row - (if row >= 3 { row - 3 } else { 0 }) - st;
    let lo = if row >= 3 { row - 3 } else { 0 };
    assert forall|t: int| 0 <= t < 4 implies ({
        let p = #[trigger] line_cell(row, col, 0, k, t);
        &&& 0 <= p.0 < HEIGHT
        &&& 0 <= p.1 < WIDTH
        &&& rows[p.0][p.1] == val
    }) by {
        assert(l[st + t] == ((lo + st + t) as usize, col as usize));
        assert(rows[l[st + t].0 as int][l[st + t].1 as int] == val);
    }
}

proof fn lemma_row_window_four(rows: Seq<Seq<i8>>, row: int, col: int, l: Seq<(usize, usize)>, st: int)
    requires
        0 <= row < HEIGHT,
        0 <= col < WIDTH,
        l == lines::horizontal_line(row, col, WIDTH as int),
        0 <= st,
        st + 4 <= l.len(),
        forall|t: int| 0 <= t < 4 ==> #[trigger] rows[l[st + t].0 as int][l[st + t].1 as int] == rows[row][col],
    ensures
        four_in_a_row(rows, row, col, 1, col - (if col >= 3 { col - 3 } else { 0 }) - st),
{
    let val = rows[row][col];
    let k = col - (if col >= 3 { col - 3 } else { 0 }) - st;
    let lo = if col >= 3 { col - 3 } else { 0 };
    assert forall|t: int| 0 <= t < 4 implies ({
        let p = #[trigger] line_cell(row, col, 1, k, t);
        &&& 0 <= p.0 < HEIGHT
        &&& 0 <= p.1 < WIDTH
        &&& rows[p.0][p.1] == val
    }) by {
        assert(l[st + t] == (row as usize, (lo + st + t) as usize));
        assert(rows[l[st + t].0 as int][l[st + t].1 as int] == val);
    }
}

proof fn lemma_rising_window_four(rows: Seq<Seq<i8>>, row: int, col: int, l: Seq<(usize, usize)>, st: int)
    requires
        0 <= row < HEIGHT,
        0 <= col < WIDTH,
        l == lines::rising_diagonal(row, col, WIDTH as int, HEIGHT as int),
        0 <= st,
        st + 4 <= l.len(),
        forall|t: int| 0 <= t < 4 ==> #[trigger] rows[l[st + t].0 as int][l[st + t].1 as int] == rows[row][col],
    ensures
        four_in_a_row(rows, row, col, 2, lines::diagonal_back(row, col) - st),
{
    let val = rows[row][col];
    let k = lines::diagonal_back(row, col) - st;
    let d = lines::diagonal_back(row, col);
    assert forall|t: int| 0 <= t < 4 implies ({
        let p = #[trigger] line_cell(row, col, 2, k, t);
        &&& 0 <= p.0 < HEIGHT
        &&& 0 <= p.1 < WIDTH
        &&& rows[p.0][p.1] == val
    }) by {
        assert(l[st + t] == ((row - d + st + t) as usize, (col - d + st + t) as usize));
        assert(rows[l[st + t].0 as int][l[st + t].1 as int] == val);
    }
}

proof fn lemma_falling_window_four(rows: Seq<Seq<i8>>, row: int, col: int, l: Seq<(usize, usize)>, st: int)
    requires
        0 <= row < HEIGHT,
        0 <= col < WIDTH,
        l == lines::falling_diagonal(row, col, WIDTH as int, HEIGHT as int),
        0 <= st,
        st + 4 <= l.len(),
        forall|t: int| 0 <= t < 4 ==> #[trigger] rows[l[st + t].0 as int][l[st + t].1 as int] == rows[row][col],
    ensures
        four_in_a_row(rows, row, col, 3, lines::diagonal_back(row, WIDTH - 1 - col) - st),
{
    let val = rows[row][col];
    let k = lines::diagonal_back(row, WIDTH - 1 - col) - st;
    let mc = WIDTH - 1 - col;
    let rdm = lines::rising_diagonal(row, mc, WIDTH as int, HEIGHT as int);
    let d = lines::diagonal_back(row, mc);
    assert forall|t: int| 0 <= t < 4 implies ({
        let p = #[trigger] line_cell(row, col, 3, k, t);
        &&& 0 <= p.0 < HEIGHT
        &&& 0 <= p.1 < WIDTH
        &&& rows[p.0][p.1] == val
    }) by {
        assert(rdm[st + t] == ((row - d + st + t) as usize, (mc - d + st + t) as usize));
        assert(l[st + t] == ((row - d + st + t) as usize, (col + d - st - t) as usize));
        assert(rows[l[st + t].0 as int][l[st + t].1 as int] == val);
    }
}

/// Four consecutive cells of one of the lines through `(row, col)` that hold its piece are
/// a four in a row through `(row, col)`: every window of four of such a line contains the cell.
proof fn lemma_line_window_four(rows: Seq<Seq<i8>>, row: int, col: int, l: Seq<(usize, usize)>, st: int)
    requires
        0 <= row < HEIGHT,
        0 <= col < WIDTH,
        l == vertical_line(row, col) || l == lines::horizontal_line(row, col, WIDTH as int)
            || l == lines::rising_diagonal(row, col, WIDTH as int, HEIGHT as int)
            || l == lines::falling_diagonal(row, col, WIDTH as int, HEIGHT as int),
        0 <= st,
        st + 4 <= l.len(),
        lines::four_equal(grid::values_on(rows, l), rows[row][col], st),
    ensures
        exists|dir: int, k: int| four_in_a_row(rows, row, col, dir, k),
{
    let val = rows[row][col];
    let vs = grid::values_on(rows, l);
    assert forall|t: int| 0 <= t < 4 implies #[trigger] rows[l[st + t].0 as int][l[st + t].1 as int] == val by {
        assert(vs[st + t] == val);
    }
    if l == vertical_line(row, col) {
        lemma_column_window_four(rows, row, col, l, st);
    } else if l == lines::horizontal_line(row, col, WIDTH as int) {
        lemma_row_window_four(rows, row, col, l, st);
    } else if l == lines::rising_diagonal(row, col, WIDTH as int, HEIGHT as int) {
        lemma_rising_window_four(rows, row, col, l, st);
    } else {
        lemma_falling_window_four(rows, row, col, l, st);
    }
}

proof fn lemma_count_none(s: Seq<i8>, val: int, lo: int, hi: int)
    requires
        forall|i: int| lo <= i < hi ==> s[i] != val,
    ensures
        lines::count_equal(s, val, lo, hi) == 0,
    decreases hi - lo,
{
    if hi > lo {
        lemma_count_none(s, val, lo, hi - 1);
    }
}

/// The position after `(row, col)` was played is won exactly when that cell holds a piece
/// and it and three more cells in a straight line with it (in its column, its row or one of
/// its diagonals) all hold that piece.
pub proof fn lemma_won_iff_four_in_a_row(rows: Seq<Seq<i8>>, set_fields: int, row: int, col: int)
    requires
        0 <= row < HEIGHT,
        0 <= col < WIDTH,
    ensures
        position_eval(rows, set_fields, row, col).winner is Some
            <==> (rows[row][col] != 0 && exists|dir: int, k: int| four_in_a_row(rows, row, col, dir, k)),
{
    let val = rows[row][col];
    let ls = cell_lines(row, col);
    let sc = line_scores(rows, val, ls);
    if has_four(sc) {
        let i = choose|i: int| 0 <= i < sc.len() && sc[i] > 3;
        let l = ls[i];
        let vs = grid::values_on(rows, l);
        assert(sc[i] == lines::best_window(val, vs, l.len() - 3));
        lines::lemma_best_window_full(val, vs, l.len() - 3);
        let st = choose|st: int| 0 <= st < l.len() - 3 && #[trigger] lines::four_equal(vs, val, st);
        lines::lemma_lines_through_member(vertical_line(row, col), row, col, WIDTH as int, HEIGHT as int, i);
        lemma_line_window_four(rows, row, col, l, st);
        lines::lemma_best_window_clean(val, vs, l.len() - 3);
        if val == 0 {
            let w = choose|w: int| 0 <= w < l.len() - 3
                && (forall|j: int| w <= j < w + 4 ==> vs[j] != -val)
                && lines::best_window(val, vs, l.len() - 3) == #[trigger] lines::count_equal(vs, val as int, w, w + 4);
            lemma_count_none(vs, val as int, w, w + 4);
        }
    }
    if val != 0 && exists|dir: int, k: int| four_in_a_row(rows, row, col, dir, k) {
        let (dir, k) = choose|dir: int, k: int| four_in_a_row(rows, row, col, dir, k);
        lemma_four_in_a_row_wins(rows, set_fields, row, col, dir, k);
    }
}

/// The board after column `action` was played is over exactly when its top piece and three
/// more in a straight line with it hold the same piece, or when every cell of the board
/// holds a piece.
pub proof fn lemma_action_finished_iff(rows: Seq<Seq<i8>>, action: int)
    requires
        0 <= action < WIDTH,
        column_count(rows, action, HEIGHT as int) >= 1,
    ensures
        ({
            let row = action_row(rows, action);
            action_eval(rows, action).finished <==> (
                (rows[row][action] != 0 && exists|dir: int, k: int| four_in_a_row(rows, row, action, dir, k))
                || forall|r: int, c: int| 0 <= r < HEIGHT && 0 <= c < WIDTH ==> #[trigger] rows[r][c] != 0)
        }),
{
    lemma_column_count_bound(rows, action, HEIGHT as int);
    lemma_action_eval_finished(rows, action);
    lemma_won_iff_four_in_a_row(rows, sum_heights(board_heights(rows), WIDTH as int) as int, action_row(rows, action), action);
}

} // verus!
