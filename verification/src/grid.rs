//! Boards held in `array2d::Array2D`: the calls into that crate that the engine and the
//! game make, with what they are taken to do, and what the engine reads off a board.
use array2d::Array2D;
use vstd::prelude::*;
use crate::lines;
use crate::playfield::Cell;

verus! {

/// The two-dimensional array of the `array2d` crate, carried as an opaque value.
#[verifier::external_type_specification]
#[verifier::external_body]
#[verifier::reject_recursive_types(T)]
pub struct ExArray2D<T>(Array2D<T>);

/// The rows of a board of cell values: the elements the array holds, in row-major order,
/// taken as `num_rows` rows of `num_columns` elements each.
pub uninterp spec fn board_rows(a: Array2D<i8>) -> Seq<Seq<i8>>;

/// The number of columns a board of cell values was made with.
pub uninterp spec fn board_columns(a: Array2D<i8>) -> nat;

/// Calls `Array2D::filled_with`; taken to give a board of `num_rows` rows that each hold
/// `num_columns` copies of `element`. The crate multiplies the two counts, hence the bound.
#[verifier::external_body]
pub(crate) fn board_filled_with(element: i8, num_rows: usize, num_columns: usize) -> (a: Array2D<i8>)
    requires
        num_rows * num_columns <= usize::MAX,
    ensures
        board_rows(a) == Seq::new(num_rows as nat, |r: int| Seq::new(num_columns as nat, |c: int| element)),
        board_columns(a) == num_columns,
{
    Array2D::filled_with(element, num_rows, num_columns)
}

/// Indexes an `Array2D` by `(row, column)` (the crate's `Index` impl, which panics out of
/// bounds); taken to give the element in that row and column.
#[verifier::external_body]
pub(crate) fn board_get(a: &Array2D<i8>, row: usize, column: usize) -> (v: i8)
    requires
        row < board_rows(*a).len(),
        column < board_columns(*a),
    ensures
        v == board_rows(*a)[row as int][column as int],
{
    a[(row, column)]
}

/// Assigns through the `IndexMut` impl of `Array2D` (which panics out of bounds); taken to
/// change that element alone and keep the board's shape.
#[verifier::external_body]
pub(crate) fn board_set(a: &mut Array2D<i8>, row: usize, column: usize, v: i8)
    requires
        row < board_rows(*old(a)).len(),
        column < board_columns(*old(a)),
    ensures
        board_rows(*final(a)) == board_rows(*old(a)).update(
            row as int,
            board_rows(*old(a))[row as int].update(column as int, v),
        ),
        board_columns(*final(a)) == board_columns(*old(a)),
{
    a[(row, column)] = v;
}

/// The rows of a board of game cells: the elements the array holds, in row-major order,
/// taken as `num_rows` rows of `num_columns` elements each.
pub uninterp spec fn cell_rows(a: Array2D<Cell>) -> Seq<Seq<Cell>>;

/// The number of columns a board of game cells was made with.
pub uninterp spec fn cell_columns(a: Array2D<Cell>) -> nat;

/// Calls `Array2D::filled_with` on game cells; taken to give a board of `num_rows` rows that
/// each hold `num_columns` copies of `element`.
#[verifier::external_body]
pub(crate) fn cells_filled_with(element: Cell, num_rows: usize, num_columns: usize) -> (a: Array2D<Cell>)
    requires
        num_rows * num_columns <= usize::MAX,
    ensures
        cell_rows(a) == Seq::new(num_rows as nat, |r: int| Seq::new(num_columns as nat, |c: int| element)),
        cell_columns(a) == num_columns,
{
    Array2D::filled_with(element, num_rows, num_columns)
}

/// Indexes an `Array2D` of game cells by `(row, column)`; taken to give a copy of the cell there.
#[verifier::external_body]
pub(crate) fn cells_get(a: &Array2D<Cell>, row: usize, column: usize) -> (v: Cell)
    requires
        row < cell_rows(*a).len(),
        column < cell_columns(*a),
    ensures
        v == cell_rows(*a)[row as int][column as int],
{
    a[(row, column)]
}

/// Assigns through the `IndexMut` impl of `Array2D` on game cells; taken to change that cell
/// alone and keep the board's shape.
#[verifier::external_body]
pub(crate) fn cells_set(a: &mut Array2D<Cell>, row: usize, column: usize, v: Cell)
    requires
        row < cell_rows(*old(a)).len(),
        column < cell_columns(*old(a)),
    ensures
        cell_rows(*final(a)) == cell_rows(*old(a)).update(
            row as int,
            cell_rows(*old(a))[row as int].update(column as int, v),
        ),
        cell_columns(*final(a)) == cell_columns(*old(a)),
{
    a[(row, column)] = v;
}

/// Calls `Array2D::num_rows`; taken to give how many rows the board holds.
#[verifier::external_body]
pub(crate) fn board_num_rows(a: &Array2D<i8>) -> (n: usize)
    ensures
        n == board_rows(*a).len(),
{
    a.num_rows()
}

/// Calls `Array2D::num_columns`; taken to give how many columns the board holds, and that
/// every row holds that many elements (the crate keeps `num_rows * num_columns` elements).
#[verifier::external_body]
pub(crate) fn board_num_columns(a: &Array2D<i8>) -> (n: usize)
    ensures
        n == board_columns(*a),
        forall|r: int| 0 <= r < board_rows(*a).len() ==> (#[trigger] board_rows(*a)[r]).len() == n,
{
    a.num_columns()
}

/// A board with at least `height` rows and `width` columns, every row of the same length.
pub open spec fn board_fits(rows: Seq<Seq<i8>>, columns: nat, height: nat, width: nat) -> bool {
    &&& height <= rows.len() <= usize::MAX
    &&& width <= columns <= usize::MAX
    &&& forall|r: int| 0 <= r < rows.len() ==> (#[trigger] rows[r]).len() == columns
}

/// The values of the board on the cells of a line, in the line's order.
pub open spec fn values_on(rows: Seq<Seq<i8>>, line: Seq<(usize, usize)>) -> Seq<i8> {
    line.map_values(|p: (usize, usize)| rows[p.0 as int][p.1 as int])
}

/// Whether the four cells of the line from position `i` on all hold `val`.
pub open spec fn run_of_four(rows: Seq<Seq<i8>>, val: i8, line: Seq<(usize, usize)>, i: int) -> bool {
    &&& 0 <= i
    &&& i + 4 <= line.len()
    &&& forall|j: int| i <= j < i + 4 ==> #[trigger] values_on(rows, line)[j] == val
}

/// The first four consecutive cells of the line, from position `i` on, that all hold `val`.
pub open spec fn first_run(rows: Seq<Seq<i8>>, val: i8, line: Seq<(usize, usize)>, i: int) -> Option<Seq<(usize, usize)>>
    decreases line.len() - i,
{
    if i < 0 || i + 4 > line.len() {
        None
    } else if run_of_four(rows, val, line, i) {
        Some(line.subrange(i, i + 4))
    } else {
        first_run(rows, val, line, i + 1)
    }
}

/// The values of the board on the cells of `line`, in the line's order.
pub fn gather(values: &Array2D<i8>, line: &Vec<(usize, usize)>) -> (out: Vec<i8>)
    requires
        board_fits(board_rows(*values), board_columns(*values), 0, 0),
        lines::line_inside(line@, board_rows(*values).len(), board_columns(*values)),
    ensures
        out@ == values_on(board_rows(*values), line@),
{
    let mut out: Vec<i8> = Vec::new();
    let mut i: usize = 0;
    while i < line.len()
        invariant
            board_fits(board_rows(*values), board_columns(*values), 0, 0),
            lines::line_inside(line@, board_rows(*values).len(), board_columns(*values)),
            i <= line@.len(),
            out@.len() == i,
            forall|j: int| 0 <= j < i ==> out@[j] == board_rows(*values)[line@[j].0 as int][line@[j].1 as int],
        decreases line@.len() - i,
    {
        let (r, c) = line[i];
        out.push(board_get(values, r, c));
        i = i + 1;
    }
    assert(out@ =~= values_on(board_rows(*values), line@));
    out
}

/// A run found by `first_run` is four cells of the line that all hold `val`.
pub proof fn lemma_first_run_cells(rows: Seq<Seq<i8>>, val: i8, line: Seq<(usize, usize)>, i: int)
    ensures
        first_run(rows, val, line, i) matches Some(run) ==> {
            &&& run.len() == 4
            &&& forall|t: int| 0 <= t < 4 ==> #[trigger] rows[run[t].0 as int][run[t].1 as int] == val
            &&& exists|j: int| i <= j && j + 4 <= line.len() && run == #[trigger] line.subrange(j, j + 4)
        },
    decreases line.len() - i,
{
    if i < 0 || i + 4 > line.len() {
    } else if run_of_four(rows, val, line, i) {
        let run = line.subrange(i, i + 4);
        assert forall|t: int| 0 <= t < 4 implies #[trigger] rows[run[t].0 as int][run[t].1 as int] == val by {
            assert(values_on(rows, line)[i + t] == val);
        }
    } else {
        lemma_first_run_cells(rows, val, line, i + 1);
    }
}

/// Where four cells of the line from position `j` on hold `val`, a search from any
/// earlier position finds a run.
pub proof fn lemma_first_run_finds(rows: Seq<Seq<i8>>, val: i8, line: Seq<(usize, usize)>, i: int, j: int)
    requires
        0 <= i <= j,
        run_of_four(rows, val, line, j),
    ensures
        first_run(rows, val, line, i) is Some,
    decreases j - i,
{
    if !run_of_four(rows, val, line, i) {
        lemma_first_run_finds(rows, val, line, i + 1, j);
    }
}

/// Where no run starts before `k`, the search from the line's start is the search from `k`.
pub proof fn lemma_first_run_skip(rows: Seq<Seq<i8>>, val: i8, line: Seq<(usize, usize)>, i: int, k: int)
    requires
        0 <= i <= k,
        forall|j: int| i <= j < k ==> !run_of_four(rows, val, line, j),
    ensures
        first_run(rows, val, line, i) == first_run(rows, val, line, k),
    decreases k - i,
{
    if i < k {
        if i + 4 > line.len() {
            lemma_first_run_none_past(rows, val, line, k);
        } else {
            lemma_first_run_skip(rows, val, line, i + 1, k);
        }
    }
}

pub proof fn lemma_first_run_none_past(rows: Seq<Seq<i8>>, val: i8, line: Seq<(usize, usize)>, k: int)
    requires
        k + 4 > line.len(),
    ensures
        first_run(rows, val, line, k) is None,
{
}

/// The first four consecutive cells of `line` that all hold `val`, read in the line's order:
/// a run of cells holding `val` grows, any other cell ends it.
pub fn four_in_line(values: &Array2D<i8>, val: i8, line: &Vec<(usize, usize)>) -> (run: Option<Vec<(usize, usize)>>)
    requires
        board_fits(board_rows(*values), board_columns(*values), 0, 0),
        lines::line_inside(line@, board_rows(*values).len(), board_columns(*values)),
    ensures
        match run {
            Some(r) => first_run(board_rows(*values), val, line@, 0) == Some(r@),
            None => first_run(board_rows(*values), val, line@, 0) is None,
        },
{
    let ghost rows = board_rows(*values);
    let ghost vs = values_on(rows, line@);
    let mut seq: Vec<(usize, usize)> = Vec::new();
    let mut j: usize = 0;
    while j < line.len()
        invariant
            board_fits(rows, board_columns(*values), 0, 0),
            rows == board_rows(*values),
            vs == values_on(rows, line@),
            lines::line_inside(line@, rows.len(), board_columns(*values)),
            j <= line@.len(),
            seq@.len() < 4,
            seq@.len() <= j,
            seq@ == line@.subrange(j - seq@.len(), j as int),
            forall|t: int| j - seq@.len() <= t < j ==> #[trigger] vs[t] == val,
            j - seq@.len() == 0 || vs[j - seq@.len() - 1] != val,
            forall|i: int| 0 <= i && i + 4 <= j ==> !run_of_four(rows, val, line@, i),
        decreases line@.len() - j,
    {
        let (r, c) = line[j];
        let ghost len0 = seq@.len();
        if board_get(values, r, c) == val {
            seq.push((r, c));
        } else {
            seq.clear();
        }
        proof {
            assert(vs[j as int] == rows[r as int][c as int]);
            if vs[j as int] != val {
                assert(seq@ =~= line@.subrange(j + 1, j + 1));
            } else {
                assert(seq@ =~= line@.subrange(j + 1 - seq@.len(), j + 1));
            }
            assert forall|i: int| 0 <= i && i + 4 <= j + 1 && seq@.len() < 4 implies !run_of_four(rows, val, line@, i) by {
                if i + 4 == j + 1 && run_of_four(rows, val, line@, i) {
                    assert(vs[j as int] == val);
                    assert(forall|t: int| i <= t < i + 4 ==> #[trigger] vs[t] == val);
                    if len0 < 3 {
                        assert(vs[j - len0 - 1] == val);
                    }
                }
            }
        }
        if seq.len() == 4 {
            proof {
                let st = j + 1 - 4;
                assert(run_of_four(rows, val, line@, st)) by {
                    assert forall|t: int| st <= t < st + 4 implies #[trigger] values_on(rows, line@)[t] == val by {}
                }
                lemma_first_run_skip(rows, val, line@, 0, st);
                assert(seq@ =~= line@.subrange(st, st + 4));
            }
            return Some(seq);
        }
        j = j + 1;
    }
    proof {
        lemma_first_run_skip(rows, val, line@, 0, j as int);
    }
    None
}

} // verus!
