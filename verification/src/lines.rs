//! The lines of cells through a cell of a board: a row, a column and the two
//! diagonals, each cut to the cells that a line of four through that cell can use.
use vstd::prelude::*;

verus! {

/// Cells `(row, c)` for `c` in `lo..hi`.
pub open spec fn row_span(row: int, lo: int, hi: int) -> Seq<(usize, usize)> {
    Seq::new((if hi > lo { hi - lo } else { 0 }) as nat, |i: int| (row as usize, (lo + i) as usize))
}

/// Cells `(r, col)` for `r` in `lo..hi`.
pub open spec fn column_span(col: int, lo: int, hi: int) -> Seq<(usize, usize)> {
    Seq::new((if hi > lo { hi - lo } else { 0 }) as nat, |i: int| ((lo + i) as usize, col as usize))
}

/// The cells of the row through `(row, col)` that lie at most three columns away.
pub open spec fn horizontal_line(row: int, col: int, width: int) -> Seq<(usize, usize)> {
    row_span(row, if col >= 3 { col - 3 } else { 0 }, if col + 4 <= width { col + 4 } else { width })
}

/// The first cell of the rising diagonal (row and column grow together) through
/// `(row, col)`: at most three steps back, and never before row or column zero.
pub open spec fn diagonal_back(row: int, col: int) -> int {
    let m = if row <= col { row } else { col };
    if m <= 3 { m } else { 3 }
}

/// How many cells the rising diagonal walk from `(row, col)` visits before it leaves the board
/// or has taken `back + 4` steps.
pub open spec fn diagonal_steps(row: int, col: int, width: int, height: int) -> int {
    let d = diagonal_back(row, col);
    let room_r = height - (row - d);
    let room_c = width - (col - d);
    let n = if room_r <= room_c { room_r } else { room_c };
    let n2 = if n <= d + 4 { n } else { d + 4 };
    if n2 >= 0 { n2 } else { 0 }
}

/// The cells of the rising diagonal through `(row, col)` at most three steps away,
/// or no cell at all where fewer than four of them lie on the board.
pub open spec fn rising_diagonal(row: int, col: int, width: int, height: int) -> Seq<(usize, usize)> {
    let d = diagonal_back(row, col);
    let n = diagonal_steps(row, col, width, height);
    if n >= 4 {
        Seq::new(n as nat, |i: int| ((row - d + i) as usize, (col - d + i) as usize))
    } else {
        Seq::empty()
    }
}

/// The falling diagonal through `(row, col)`: the rising diagonal of the board seen in a
/// mirror, with every column `c` read as `width - 1 - c`.
pub open spec fn falling_diagonal(row: int, col: int, width: int, height: int) -> Seq<(usize, usize)> {
    rising_diagonal(row, width - 1 - col, width, height).map_values(
        |p: (usize, usize)| (p.0, (width - 1 - p.1) as usize),
    )
}

/// The cells `(row, c)` for `c` in `lo..hi`.
pub fn row_cells(row: usize, lo: usize, hi: usize) -> (cells: Vec<(usize, usize)>)
    ensures
        cells@ == row_span(row as int, lo as int, hi as int),
{
    let mut cells: Vec<(usize, usize)> = Vec::new();
    let mut c = lo;
    while c < hi
        invariant
            lo <= c || hi <= lo,
            c <= hi || hi <= lo,
            hi > lo ==> cells@.len() == c - lo,
            hi <= lo ==> cells@.len() == 0 && c == lo,
            forall|i: int| 0 <= i < cells@.len() ==> cells@[i] == (row, (lo + i) as usize),
        decreases hi - c,
    {
        cells.push((row, c));
        c = c + 1;
    }
    assert(cells@ =~= row_span(row as int, lo as int, hi as int));
    cells
}

/// The cells `(r, col)` for `r` in `lo..hi`.
pub fn column_cells(col: usize, lo: usize, hi: usize) -> (cells: Vec<(usize, usize)>)
    ensures
        cells@ == column_span(col as int, lo as int, hi as int),
{
    let mut cells: Vec<(usize, usize)> = Vec::new();
    let mut r = lo;
    while r < hi
        invariant
            lo <= r || hi <= lo,
            r <= hi || hi <= lo,
            hi > lo ==> cells@.len() == r - lo,
            hi <= lo ==> cells@.len() == 0 && r == lo,
            forall|i: int| 0 <= i < cells@.len() ==> cells@[i] == ((lo + i) as usize, col),
        decreases hi - r,
    {
        cells.push((r, col));
        r = r + 1;
    }
    assert(cells@ =~= column_span(col as int, lo as int, hi as int));
    cells
}

/// The row through `(row, col)`, cut to the columns at most three away that exist.
pub fn horizontal(row: usize, col: usize, width: usize) -> (cells: Vec<(usize, usize)>)
    requires
        col < width,
        width <= 128,
    ensures
        cells@ == horizontal_line(row as int, col as int, width as int),
{
    let lo: usize = if col >= 3 { col - 3 } else { 0 };
    let hi: usize = if col + 4 <= width { col + 4 } else { width };
    row_cells(row, lo, hi)
}

/// The rising diagonal through `(row, col)`: walk from at most three steps back while the
/// walk stays on the board, for at most `back + 4` steps; fewer than four cells give none.
pub fn rising(row: usize, col: usize, width: usize, height: usize) -> (cells: Vec<(usize, usize)>)
    ensures
        cells@ == rising_diagonal(row as int, col as int, width as int, height as int),
{
    let m: usize = if row <= col { row } else { col };
    let d: usize = if m <= 3 { m } else { 3 };
    let mut r = row - d;
    let mut c = col - d;
    let ghost n = diagonal_steps(row as int, col as int, width as int, height as int);
    let mut cells: Vec<(usize, usize)> = Vec::new();
    let mut k: usize = 0;
    while k < d + 4
        invariant_except_break
            d == diagonal_back(row as int, col as int),
            d <= 3,
            n == diagonal_steps(row as int, col as int, width as int, height as int),
            k <= d + 4,
            k <= n,
            r == row - d + k,
            c == col - d + k,
            cells@.len() == k,
            forall|i: int| 0 <= i < k ==> cells@[i] == ((row - d + i) as usize, (col - d + i) as usize),
        ensures
            cells@.len() == n,
            forall|i: int| 0 <= i < n ==> cells@[i] == ((row - d + i) as usize, (col - d + i) as usize),
        decreases d + 4 - k,
    {
        if r >= height || c >= width {
            break;
        }
        cells.push((r, c));
        r = r + 1;
        c = c + 1;
        k = k + 1;
    }
    if cells.len() < 4 {
        cells.clear();
    }
    assert(cells@ =~= rising_diagonal(row as int, col as int, width as int, height as int));
    cells
}

/// The falling diagonal through `(row, col)`: the rising diagonal of the mirrored board,
/// mirrored back.
pub fn falling(row: usize, col: usize, width: usize, height: usize) -> (cells: Vec<(usize, usize)>)
    requires
        col < width,
    ensures
        cells@ == falling_diagonal(row as int, col as int, width as int, height as int),
{
    let mirrored = width - 1 - col;
    let diagonal = rising(row, mirrored, width, height);
    let ghost src = diagonal@;
    proof {
        assert forall|i: int| 0 <= i < src.len() implies src[i].1 < width by {}
    }
    let mut cells: Vec<(usize, usize)> = Vec::new();
    let mut i: usize = 0;
    while i < diagonal.len()
        invariant
            src == diagonal@,
            src == rising_diagonal(row as int, mirrored as int, width as int, height as int),
            mirrored == width - 1 - col,
            col < width,
            i <= src.len(),
            cells@.len() == i,
            forall|j: int| 0 <= j < i ==> cells@[j] == (src[j].0, (width - 1 - src[j].1) as usize),
        decreases src.len() - i,
    {
        let (r, c) = diagonal[i];
        cells.push((r, width - 1 - c));
        i = i + 1;
    }
    assert(cells@ =~= falling_diagonal(row as int, col as int, width as int, height as int));
    cells
}

/// How many of `s[lo..hi]` equal `val`.
pub open spec fn count_equal(s: Seq<i8>, val: int, lo: int, hi: int) -> nat
    decreases hi - lo,
{
    if hi <= lo {
        0
    } else {
        count_equal(s, val, lo, hi - 1) + (if s[hi - 1] == val { 1nat } else { 0nat })
    }
}

/// Whether one of `s[lo..hi]` equals `val`.
pub open spec fn holds_value(s: Seq<i8>, val: int, lo: int, hi: int) -> bool {
    exists|j: int| lo <= j < hi && s[j] == val
}

/// The score of the window of four values starting at `start`, for the player `val`:
/// none where the opponent holds one of the four, else how many of the four `val` holds.
pub open spec fn window_score(val: i8, s: Seq<i8>, start: int) -> nat {
    if holds_value(s, -val, start, start + 4) {
        0
    } else {
        count_equal(s, val as int, start, start + 4)
    }
}

/// The best score of the windows of four that start at `0..n`.
pub open spec fn best_window(val: i8, s: Seq<i8>, n: int) -> nat
    decreases n,
{
    if n <= 0 {
        0
    } else {
        let prev = best_window(val, s, n - 1);
        let w = window_score(val, s, n - 1);
        if w > prev { w } else { prev }
    }
}

pub proof fn lemma_count_equal_bound(s: Seq<i8>, val: int, lo: int, hi: int)
    requires
        lo <= hi,
    ensures
        count_equal(s, val, lo, hi) <= hi - lo,
    decreases hi - lo,
{
    if hi > lo {
        lemma_count_equal_bound(s, val, lo, hi - 1);
    }
}

pub proof fn lemma_best_window_bound(val: i8, s: Seq<i8>, n: int)
    ensures
        best_window(val, s, n) <= 4,
    decreases n,
{
    if n > 0 {
        lemma_best_window_bound(val, s, n - 1);
        lemma_count_equal_bound(s, val as int, n - 1, n + 3);
    }
}

/// Whether the four values from position `st` on all equal `val`.
pub open spec fn four_equal(s: Seq<i8>, val: i8, st: int) -> bool {
    forall|j: int| st <= j < st + 4 ==> #[trigger] s[j] == val
}

/// A best score of four comes from a window of four values that all equal `val`.
pub proof fn lemma_best_window_full(val: i8, s: Seq<i8>, n: int)
    requires
        best_window(val, s, n) > 3,
        n <= s.len() - 3,
    ensures
        exists|st: int| 0 <= st < n && #[trigger] four_equal(s, val, st),
    decreases n,
{
    if n > 0 {
        let prev = best_window(val, s, n - 1);
        let w = window_score(val, s, n - 1);
        if w > 3 {
            let st = n - 1;
            lemma_count_full(s, val as int, st, st + 4);
            assert(four_equal(s, val, st));
        } else {
            lemma_best_window_full(val, s, n - 1);
        }
    }
}

/// Where every one of `s[lo..hi]` counts, all of them equal `val`.
pub proof fn lemma_count_full(s: Seq<i8>, val: int, lo: int, hi: int)
    requires
        lo <= hi,
        count_equal(s, val, lo, hi) >= hi - lo,
    ensures
        forall|j: int| lo <= j < hi ==> #[trigger] s[j] == val,
    decreases hi - lo,
{
    if hi > lo {
        lemma_count_equal_bound(s, val, lo, hi - 1);
        lemma_count_full(s, val, lo, hi - 1);
    }
}

/// Whether all cells of the line lie in the first `height` rows and `width` columns.
pub open spec fn line_inside(line: Seq<(usize, usize)>, height: nat, width: nat) -> bool {
    forall|i: int| 0 <= i < line.len() ==> (#[trigger] line[i]).0 < height && line[i].1 < width
}

/// A line as a one-element list where it holds a cell, else no line at all.
pub open spec fn keep(line: Seq<(usize, usize)>) -> Seq<Seq<(usize, usize)>> {
    if line.len() > 0 { seq![line] } else { Seq::empty() }
}

/// The lines through `(row, col)`: the column line `vert`, the row and the two diagonals,
/// in that order, each left out where it holds no cell.
pub open spec fn lines_through(vert: Seq<(usize, usize)>, row: int, col: int, width: int, height: int) -> Seq<Seq<(usize, usize)>> {
    keep(vert) + keep(horizontal_line(row, col, width)) + keep(rising_diagonal(row, col, width, height))
        + keep(falling_diagonal(row, col, width, height))
}

/// Each line through a cell is its column line, its row or one of its diagonals.
pub proof fn lemma_lines_through_member(vert: Seq<(usize, usize)>, row: int, col: int, width: int, height: int, k: int)
    requires
        0 <= k < lines_through(vert, row, col, width, height).len(),
    ensures
        ({
            let l = lines_through(vert, row, col, width, height)[k];
            ||| l == vert
            ||| l == horizontal_line(row, col, width)
            ||| l == rising_diagonal(row, col, width, height)
            ||| l == falling_diagonal(row, col, width, height)
        }),
{
    let a = keep(vert);
    let b = keep(horizontal_line(row, col, width));
    let c = keep(rising_diagonal(row, col, width, height));
    let d = keep(falling_diagonal(row, col, width, height));
    let all = lines_through(vert, row, col, width, height);
    assert(all == a + b + c + d);
    if k < a.len() {
        assert(all[k] == a[k]);
    } else if k < a.len() + b.len() {
        assert(all[k] == b[k - a.len()]);
    } else if k < a.len() + b.len() + c.len() {
        assert(all[k] == c[k - a.len() - b.len()]);
    } else {
        assert(all[k] == d[k - a.len() - b.len() - c.len()]);
    }
}

/// On a board of `height` rows and `width` columns, every line through a cell stays on the board.
pub proof fn lemma_lines_through_inside(vert: Seq<(usize, usize)>, row: int, col: int, width: int, height: int)
    requires
        0 <= row < height,
        0 <= col < width,
        line_inside(vert, height as nat, width as nat),
    ensures
        forall|k: int| 0 <= k < lines_through(vert, row, col, width, height).len()
            ==> line_inside(#[trigger] lines_through(vert, row, col, width, height)[k], height as nat, width as nat),
{
    let h = horizontal_line(row, col, width);
    let rd = rising_diagonal(row, col, width, height);
    let ld = falling_diagonal(row, col, width, height);
    let rdm = rising_diagonal(row, width - 1 - col, width, height);
    assert(line_inside(h, height as nat, width as nat));
    assert(line_inside(rd, height as nat, width as nat));
    assert(line_inside(rdm, height as nat, width as nat));
    assert(line_inside(ld, height as nat, width as nat));
    let all = lines_through(vert, row, col, width, height);
    assert forall|k: int| 0 <= k < all.len() implies line_inside(#[trigger] all[k], height as nat, width as nat) by {
        lemma_lines_through_member(vert, row, col, width, height, k);
    }
}

/// The lines among `v`, `h`, `rd` and `ld` that hold a cell, in that order.
pub fn gather_lines(
    v: Vec<(usize, usize)>,
    h: Vec<(usize, usize)>,
    rd: Vec<(usize, usize)>,
    ld: Vec<(usize, usize)>,
) -> (all: Vec<Vec<(usize, usize)>>)
    ensures
        ({
            let expected = keep(v@) + keep(h@) + keep(rd@) + keep(ld@);
            &&& all@.len() == expected.len()
            &&& forall|k: int| 0 <= k < all@.len() ==> (#[trigger] all@[k])@ == expected[k]
        }),
{
    let ghost gv = v@;
    let ghost gh = h@;
    let ghost grd = rd@;
    let ghost gld = ld@;
    let mut all: Vec<Vec<(usize, usize)>> = Vec::new();
    if v.len() > 0 {
        all.push(v);
    }
    let ghost s1 = all@.map_values(|l: Vec<(usize, usize)>| l@);
    assert(s1 =~= keep(gv));
    if h.len() > 0 {
        all.push(h);
    }
    let ghost s2 = all@.map_values(|l: Vec<(usize, usize)>| l@);
    assert(s2 =~= keep(gv) + keep(gh));
    if rd.len() > 0 {
        all.push(rd);
    }
    let ghost s3 = all@.map_values(|l: Vec<(usize, usize)>| l@);
    assert(s3 =~= keep(gv) + keep(gh) + keep(grd));
    if ld.len() > 0 {
        all.push(ld);
    }
    let ghost s4 = all@.map_values(|l: Vec<(usize, usize)>| l@);
    let ghost expected = keep(gv) + keep(gh) + keep(grd) + keep(gld);
    assert(s4 =~= expected);
    assert forall|k: int| 0 <= k < all@.len() implies (#[trigger] all@[k])@ == expected[k] by {
        assert(s4[k] == all@[k]@);
    }
    all
}

/// The best score of the windows of four that start at `0..n` is the largest count of
/// `val` in a window that holds no `-val`, and zero where no window is free of `-val`:
/// a window that holds the opponent's piece at any of its four places scores nothing.
pub proof fn lemma_best_window_clean(val: i8, s: Seq<i8>, n: int)
    requires
        n <= s.len() - 3,
    ensures
        forall|st: int| 0 <= st < n && (forall|i: int| st <= i < st + 4 ==> s[i] != -val)
            ==> best_window(val, s, n) >= #[trigger] count_equal(s, val as int, st, st + 4),
        best_window(val, s, n) == 0 || exists|st: int| 0 <= st < n
            && (forall|i: int| st <= i < st + 4 ==> s[i] != -val)
            && best_window(val, s, n) == #[trigger] count_equal(s, val as int, st, st + 4),
    decreases n,
{
    if n > 0 {
        lemma_best_window_clean(val, s, n - 1);
        let st = n - 1;
        if holds_value(s, -val, st, st + 4) {
            let j = choose|j: int| st <= j < st + 4 && s[j] == -val;
            assert(!(forall|i: int| st <= i < st + 4 ==> s[i] != -val));
        } else {
            assert(forall|i: int| st <= i < st + 4 ==> s[i] != -val);
        }
    }
}

/// The best score is at least that of each of the windows it ranges over.
pub proof fn lemma_best_window_ge(val: i8, s: Seq<i8>, n: int, st: int)
    requires
        0 <= st < n,
    ensures
        best_window(val, s, n) >= window_score(val, s, st),
    decreases n,
{
    if st < n - 1 {
        lemma_best_window_ge(val, s, n - 1, st);
    }
}

/// A window of four values that all equal a piece `val` scores four.
pub proof fn lemma_window_four(val: i8, s: Seq<i8>, st: int)
    requires
        val != 0,
        0 <= st,
        st + 4 <= s.len(),
        four_equal(s, val, st),
    ensures
        window_score(val, s, st) == 4,
{
    assert(!holds_value(s, -val, st, st + 4));
    assert(count_equal(s, val as int, st, st + 4) == 4) by {
        reveal_with_fuel(count_equal, 5);
    }
}

/// Each line through a cell that holds a cell is among the lines through it.
pub proof fn lemma_lines_through_contains(vert: Seq<(usize, usize)>, row: int, col: int, width: int, height: int)
    ensures
        vert.len() > 0 ==> lines_through(vert, row, col, width, height).contains(vert),
        horizontal_line(row, col, width).len() > 0 ==> lines_through(vert, row, col, width, height).contains(horizontal_line(row, col, width)),
        rising_diagonal(row, col, width, height).len() > 0
            ==> lines_through(vert, row, col, width, height).contains(rising_diagonal(row, col, width, height)),
        falling_diagonal(row, col, width, height).len() > 0
            ==> lines_through(vert, row, col, width, height).contains(falling_diagonal(row, col, width, height)),
{
    let a = keep(vert);
    let b = keep(horizontal_line(row, col, width));
    let c = keep(rising_diagonal(row, col, width, height));
    let d = keep(falling_diagonal(row, col, width, height));
    let all = lines_through(vert, row, col, width, height);
    assert(all == a + b + c + d);
    if vert.len() > 0 {
        assert(all[0] == vert);
    }
    if b.len() > 0 {
        assert(all[a.len() as int] == b[0]);
    }
    if c.len() > 0 {
        assert(all[(a.len() + b.len()) as int] == c[0]);
    }
    if d.len() > 0 {
        assert(all[(a.len() + b.len() + c.len()) as int] == d[0]);
    }
}

} // verus!
