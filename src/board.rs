//! Cells, the board as a grid of cells, and counting cells by kind.
use vstd::prelude::*;
use crate::grid::{Pos, in_bounds, lemma_neighbors_in_grid, neighbor_seq, with_surrounding_cells};

verus! {

/// What a cell holds: a mine, or the number of mines among its neighbours.
#[derive(Clone, Copy, Debug, PartialEq, Eq, Structural)]
pub enum CellValue {
    Mined,
    Number(u8),
}

/// How a cell shows during play.
#[derive(Clone, Copy, Debug, PartialEq, Eq, Structural)]
pub enum CellStatus {
    Covered,
    Revealed,
    Flagged,
}

/// One cell of the board.
#[derive(Clone, Copy, Debug, PartialEq, Eq, Structural)]
pub struct Cell {
    pub status: CellStatus,
    pub value: CellValue,
}

/// A board as columns of cells: `b[x][y]` is the cell in column `x`, row `y`.
pub type Board = Seq<Seq<Cell>>;

/// The board that a grid of `Vec`s holds.
pub open spec fn board_of(v: Seq<Vec<Cell>>) -> Board {
    v.map_values(|col: Vec<Cell>| col@)
}

pub open spec fn cell_at(b: Board, p: Pos) -> Cell {
    b[p.0 as int][p.1 as int]
}

/// `b` has `columns` columns of `rows` cells each.
pub open spec fn shaped(b: Board, columns: usize, rows: usize) -> bool {
    &&& b.len() == columns
    &&& forall|x: int| 0 <= x < columns ==> #[trigger] b[x].len() == rows
}

/// `b` with the cell at `p` replaced by `c`.
pub open spec fn set_cell(b: Board, p: Pos, c: Cell) -> Board {
    b.update(p.0 as int, b[p.0 as int].update(p.1 as int, c))
}

pub open spec fn mined() -> spec_fn(Cell) -> bool {
    |c: Cell| c.value is Mined
}

pub open spec fn safe() -> spec_fn(Cell) -> bool {
    |c: Cell| c.value is Number
}

pub open spec fn flagged() -> spec_fn(Cell) -> bool {
    |c: Cell| c.status is Flagged
}

pub open spec fn covered() -> spec_fn(Cell) -> bool {
    |c: Cell| c.status is Covered
}

pub open spec fn revealed_safe() -> spec_fn(Cell) -> bool {
    |c: Cell| c.status is Revealed && c.value is Number
}

pub open spec fn revealed_mine() -> spec_fn(Cell) -> bool {
    |c: Cell| c.status is Revealed && c.value is Mined
}

/// The number of cells of `col` that satisfy `f`.
pub open spec fn count_column(col: Seq<Cell>, f: spec_fn(Cell) -> bool) -> nat
    decreases col.len(),
{
    if col.len() == 0 {
        0
    } else {
        count_column(col.drop_last(), f) + if f(col.last()) {
            1nat
        } else {
            0nat
        }
    }
}

/// The number of cells of `b` that satisfy `f`.
pub open spec fn count_cells(b: Board, f: spec_fn(Cell) -> bool) -> nat
    decreases b.len(),
{
    if b.len() == 0 {
        0
    } else {
        count_cells(b.drop_last(), f) + count_column(b.last(), f)
    }
}

/// The number of cells of `b`.
pub open spec fn total_cells(b: Board) -> nat
    decreases b.len(),
{
    if b.len() == 0 {
        0
    } else {
        total_cells(b.drop_last()) + b.last().len()
    }
}

/// The number of mined cells at the positions listed in `s`.
pub open spec fn mines_among(b: Board, s: Seq<Pos>) -> nat
    decreases s.len(),
{
    if s.len() == 0 {
        0
    } else {
        mines_among(b, s.drop_last()) + if cell_at(b, s.last()).value is Mined {
            1nat
        } else {
            0nat
        }
    }
}

/// The number of flagged cells at the positions listed in `s`.
pub open spec fn flags_among(b: Board, s: Seq<Pos>) -> nat
    decreases s.len(),
{
    if s.len() == 0 {
        0
    } else {
        flags_among(b, s.drop_last()) + if cell_at(b, s.last()).status is Flagged {
            1nat
        } else {
            0nat
        }
    }
}

/// The number of mines among the neighbours of `(x, y)`.
pub open spec fn mines_around(b: Board, columns: usize, rows: usize, x: usize, y: usize) -> nat {
    mines_among(b, neighbor_seq(columns, rows, x, y))
}

/// Every cell that holds a number holds the number of mines around it.
pub open spec fn numbers_correct(b: Board, columns: usize, rows: usize) -> bool {
    forall|x: usize, y: usize|
        #![trigger cell_at(b, (x, y))]
        in_bounds(columns, rows, (x, y)) && cell_at(b, (x, y)).value is Number ==> cell_at(
            b,
            (x, y),
        ).value->Number_0 == mines_around(b, columns, rows, x, y)
}

proof fn lemma_count_column_update(col: Seq<Cell>, y: int, c: Cell, f: spec_fn(Cell) -> bool)
    requires
        0 <= y < col.len(),
    ensures
        count_column(col.update(y, c), f) + (if f(col[y]) {
            1int
        } else {
            0int
        }) == count_column(col, f) + (if f(c) {
            1int
        } else {
            0int
        }),
    decreases col.len(),
{
    let u = col.update(y, c);
    if y == col.len() - 1 {
        assert(u.drop_last() =~= col.drop_last());
    } else {
        assert(u.drop_last() =~= col.drop_last().update(y, c));
        lemma_count_column_update(col.drop_last(), y, c, f);
    }
}

/// Replacing one cell changes a count by what the old and the new cell add to it.
pub proof fn lemma_count_update(b: Board, p: Pos, c: Cell, f: spec_fn(Cell) -> bool)
    requires
        p.0 < b.len(),
        p.1 < b[p.0 as int].len(),
    ensures
        count_cells(set_cell(b, p, c), f) + (if f(cell_at(b, p)) {
            1int
        } else {
            0int
        }) == count_cells(b, f) + (if f(c) {
            1int
        } else {
            0int
        }),
    decreases b.len(),
{
    let x = p.0 as int;
    let u = set_cell(b, p, c);
    if x == b.len() - 1 {
        assert(u.drop_last() =~= b.drop_last());
        lemma_count_column_update(b[x], p.1 as int, c, f);
    } else {
        assert(u.drop_last() =~= set_cell(b.drop_last(), p, c));
        lemma_count_update(b.drop_last(), p, c, f);
    }
}

proof fn lemma_count_column_ext(c1: Seq<Cell>, c2: Seq<Cell>, f: spec_fn(Cell) -> bool, g: spec_fn(Cell) -> bool)
    requires
        c1.len() == c2.len(),
        forall|y: int| 0 <= y < c1.len() ==> f(#[trigger] c1[y]) == g(c2[y]),
    ensures
        count_column(c1, f) == count_column(c2, g),
    decreases c1.len(),
{
    if c1.len() > 0 {
        lemma_count_column_ext(c1.drop_last(), c2.drop_last(), f, g);
    }
}

/// Two boards of one shape whose cells agree on `f` and `g` position by
/// position have as many cells of each.
pub proof fn lemma_count_ext(b1: Board, b2: Board, f: spec_fn(Cell) -> bool, g: spec_fn(Cell) -> bool)
    requires
        b1.len() == b2.len(),
        forall|x: int| 0 <= x < b1.len() ==> (#[trigger] b1[x]).len() == b2[x].len(),
        forall|x: int, y: int|
            0 <= x < b1.len() && 0 <= y < b1[x].len() ==> f(#[trigger] b1[x][y]) == g(b2[x][y]),
    ensures
        count_cells(b1, f) == count_cells(b2, g),
    decreases b1.len(),
{
    if b1.len() > 0 {
        let x = b1.len() - 1;
        assert forall|y: int| 0 <= y < b1[x].len() implies f(#[trigger] b1.last()[y]) == g(b2.last()[y]) by {
            assert(b1[x][y] == b1.last()[y]);
        }
        lemma_count_column_ext(b1.last(), b2.last(), f, g);
        lemma_count_ext(b1.drop_last(), b2.drop_last(), f, g);
    }
}

proof fn lemma_count_column_split(col: Seq<Cell>, f: spec_fn(Cell) -> bool, g: spec_fn(Cell) -> bool)
    requires
        forall|c: Cell| #[trigger] f(c) != g(c),
    ensures
        count_column(col, f) + count_column(col, g) == col.len(),
    decreases col.len(),
{
    if col.len() > 0 {
        lemma_count_column_split(col.drop_last(), f, g);
    }
}

/// Where every cell satisfies exactly one of `f` and `g`, the two counts add up
/// to the number of cells.
pub proof fn lemma_count_split(b: Board, f: spec_fn(Cell) -> bool, g: spec_fn(Cell) -> bool)
    requires
        forall|c: Cell| #[trigger] f(c) != g(c),
    ensures
        count_cells(b, f) + count_cells(b, g) == total_cells(b),
    decreases b.len(),
{
    if b.len() > 0 {
        lemma_count_column_split(b.last(), f, g);
        lemma_count_split(b.drop_last(), f, g);
    }
}

/// A board of `columns` columns of `rows` cells has `columns * rows` cells.
pub proof fn lemma_total_cells(b: Board, columns: usize, rows: usize)
    requires
        shaped(b, columns, rows),
    ensures
        total_cells(b) == columns * rows,
    decreases b.len(),
{
    if b.len() > 0 {
        let d = b.drop_last();
        assert(shaped(d, (columns - 1) as usize, rows)) by {
            assert forall|x: int| 0 <= x < columns - 1 implies #[trigger] d[x].len() == rows by {
                assert(d[x] == b[x]);
            }
        }
        lemma_total_cells(d, (columns - 1) as usize, rows);
        assert(b.last() == b[columns - 1]);
        let c1 = (columns - 1) as usize;
        assert(c1 * rows + rows == columns * rows) by (nonlinear_arith)
            requires
                c1 == columns - 1,
        ;
    } else {
        assert(columns * rows == 0) by (nonlinear_arith)
            requires
                columns == 0,
        ;
    }
}

proof fn lemma_count_column_le(col: Seq<Cell>, f: spec_fn(Cell) -> bool, g: spec_fn(Cell) -> bool)
    requires
        forall|c: Cell| #[trigger] f(c) ==> g(c),
    ensures
        count_column(col, f) <= count_column(col, g),
        count_column(col, f) == count_column(col, g) ==> forall|y: int|
            0 <= y < col.len() && g(#[trigger] col[y]) ==> f(col[y]),
    decreases col.len(),
{
    if col.len() > 0 {
        let d = col.drop_last();
        lemma_count_column_le(d, f, g);
        assert forall|y: int|
            0 <= y < col.len() - 1 && g(#[trigger] col[y]) implies g(d[y]) by {
            assert(d[y] == col[y]);
        }
    }
}

/// Where `f` implies `g`, fewer cells satisfy `f`; as many only if every cell
/// that satisfies `g` satisfies `f` too.
pub proof fn lemma_count_le(b: Board, f: spec_fn(Cell) -> bool, g: spec_fn(Cell) -> bool)
    requires
        forall|c: Cell| #[trigger] f(c) ==> g(c),
    ensures
        count_cells(b, f) <= count_cells(b, g),
        count_cells(b, f) == count_cells(b, g) ==> forall|x: int, y: int|
            0 <= x < b.len() && 0 <= y < b[x].len() && g(#[trigger] b[x][y]) ==> f(b[x][y]),
    decreases b.len(),
{
    if b.len() > 0 {
        let d = b.drop_last();
        lemma_count_le(d, f, g);
        lemma_count_column_le(b.last(), f, g);
        assert forall|x: int, y: int|
            0 <= x < b.len() - 1 && 0 <= y < b[x].len() && g(#[trigger] b[x][y]) implies g(
            d[x][y],
        ) by {
            assert(d[x] == b[x]);
        }
    }
}

/// The count of mines at listed positions depends only on where the mines are.
pub proof fn lemma_mines_among_ext(b1: Board, b2: Board, s: Seq<Pos>)
    requires
        forall|i: int|
            0 <= i < s.len() ==> (cell_at(b1, #[trigger] s[i]).value is Mined) == (cell_at(
                b2,
                s[i],
            ).value is Mined),
    ensures
        mines_among(b1, s) == mines_among(b2, s),
    decreases s.len(),
{
    if s.len() > 0 {
        let d = s.drop_last();
        assert forall|i: int| 0 <= i < d.len() implies (cell_at(b1, #[trigger] d[i]).value is Mined)
            == (cell_at(b2, d[i]).value is Mined) by {
            assert(d[i] == s[i]);
        }
        lemma_mines_among_ext(b1, b2, d);
    }
}

/// A board whose cells keep their values keeps its numbers correct.
pub proof fn lemma_numbers_kept(b1: Board, b2: Board, columns: usize, rows: usize)
    requires
        numbers_correct(b1, columns, rows),
        forall|p: Pos| #[trigger]
            in_bounds(columns, rows, p) ==> cell_at(b2, p).value == cell_at(b1, p).value,
    ensures
        numbers_correct(b2, columns, rows),
{
    assert forall|x: usize, y: usize|
        #![trigger cell_at(b2, (x, y))]
        in_bounds(columns, rows, (x, y)) && cell_at(b2, (x, y)).value is Number implies cell_at(
            b2,
            (x, y),
        ).value->Number_0 == mines_around(b2, columns, rows, x, y) by {
        let s = neighbor_seq(columns, rows, x, y);
        lemma_neighbors_in_grid(columns, rows, x, y);
        assert forall|i: int| 0 <= i < s.len() implies (cell_at(b1, #[trigger] s[i]).value is Mined)
            == (cell_at(b2, s[i]).value is Mined) by {
            assert(s.contains(s[i]));
        }
        lemma_mines_among_ext(b1, b2, s);
        assert(cell_at(b1, (x, y)).value == cell_at(b2, (x, y)).value);
    }
}

/// Where no mine is counted among listed positions, none of them holds one.
pub proof fn lemma_no_mines_among(b: Board, s: Seq<Pos>)
    requires
        mines_among(b, s) == 0,
    ensures
        forall|i: int| 0 <= i < s.len() ==> !(cell_at(b, #[trigger] s[i]).value is Mined),
    decreases s.len(),
{
    if s.len() > 0 {
        let d = s.drop_last();
        lemma_no_mines_among(b, d);
        assert forall|i: int| 0 <= i < s.len() implies !(cell_at(b, #[trigger] s[i]).value is Mined) by {
            if i < s.len() - 1 {
                assert(d[i] == s[i]);
            }
        }
    }
}

proof fn lemma_count_column_none(col: Seq<Cell>, f: spec_fn(Cell) -> bool)
    requires
        forall|y: int| 0 <= y < col.len() ==> !f(#[trigger] col[y]),
    ensures
        count_column(col, f) == 0,
    decreases col.len(),
{
    if col.len() > 0 {
        let d = col.drop_last();
        assert(forall|y: int| 0 <= y < d.len() ==> #[trigger] d[y] == col[y]);
        lemma_count_column_none(d, f);
    }
}

/// Where no cell satisfies `f`, the count is zero.
pub proof fn lemma_count_none(b: Board, f: spec_fn(Cell) -> bool)
    requires
        forall|x: int, y: int| 0 <= x < b.len() && 0 <= y < b[x].len() ==> !f(#[trigger] b[x][y]),
    ensures
        count_cells(b, f) == 0,
    decreases b.len(),
{
    if b.len() > 0 {
        let d = b.drop_last();
        assert(forall|x: int| 0 <= x < d.len() ==> #[trigger] d[x] == b[x]);
        assert(b.last() == b[b.len() - 1]);
        lemma_count_column_none(b.last(), f);
        lemma_count_none(d, f);
    }
}

/// A board of `columns` columns of `rows` covered cells without mines.
pub fn new_board(columns: usize, rows: usize) -> (b: Vec<Vec<Cell>>)
    ensures
        shaped(board_of(b@), columns, rows),
        forall|p: Pos| #[trigger]
            in_bounds(columns, rows, p) ==> cell_at(board_of(b@), p) == (Cell {
                status: CellStatus::Covered,
                value: CellValue::Number(0),
            }),
{
    let blank = Cell { status: CellStatus::Covered, value: CellValue::Number(0) };
    let mut b: Vec<Vec<Cell>> = Vec::new();
    let mut x: usize = 0;
    while x < columns
        invariant
            x <= columns,
            b@.len() == x,
            forall|i: int| 0 <= i < x ==> (#[trigger] b@[i])@.len() == rows,
            forall|i: int, j: int| 0 <= i < x && 0 <= j < rows ==> #[trigger] b@[i]@[j] == blank,
        decreases columns - x,
    {
        let mut col: Vec<Cell> = Vec::new();
        let mut y: usize = 0;
        while y < rows
            invariant
                y <= rows,
                col@.len() == y,
                forall|j: int| 0 <= j < y ==> #[trigger] col@[j] == blank,
            decreases rows - y,
        {
            col.push(blank);
            y = y + 1;
        }
        b.push(col);
        x = x + 1;
    }
    b
}

/// Sets the value of the cell at `p`.
pub fn set_value(b: &mut Vec<Vec<Cell>>, p: Pos, v: CellValue)
    requires
        p.0 < old(b)@.len(),
        p.1 < old(b)@[p.0 as int]@.len(),
    ensures
        board_of(final(b)@) == set_cell(
            board_of(old(b)@),
            p,
            Cell { status: cell_at(board_of(old(b)@), p).status, value: v },
        ),
{
    b[p.0][p.1].value = v;
    assert(board_of(b@) =~~= set_cell(
        board_of(old(b)@),
        p,
        Cell { status: cell_at(board_of(old(b)@), p).status, value: v },
    ));
}

/// Puts a mine at each of the distinct positions `mines` of a board without
/// mines.
pub fn place_mines(b: &mut Vec<Vec<Cell>>, columns: usize, rows: usize, mines: &Vec<Pos>)
    requires
        shaped(board_of(old(b)@), columns, rows),
        forall|p: Pos| #[trigger]
            in_bounds(columns, rows, p) ==> cell_at(board_of(old(b)@), p).value is Number,
        forall|i: int| 0 <= i < mines@.len() ==> in_bounds(columns, rows, #[trigger] mines@[i]),
        mines@.no_duplicates(),
    ensures
        shaped(board_of(final(b)@), columns, rows),
        count_cells(board_of(final(b)@), mined()) == count_cells(board_of(old(b)@), mined())
            + mines@.len(),
        forall|p: Pos| #[trigger]
            in_bounds(columns, rows, p) ==> cell_at(board_of(final(b)@), p).status == cell_at(
                board_of(old(b)@),
                p,
            ).status && (cell_at(board_of(final(b)@), p).value is Mined <==> mines@.contains(p))
                && (!mines@.contains(p) ==> cell_at(board_of(final(b)@), p) == cell_at(
                board_of(old(b)@),
                p,
            )),
{
    let ghost b0 = board_of(b@);
    let mut i: usize = 0;
    while i < mines.len()
        invariant
            shaped(b0, columns, rows),
            shaped(board_of(b@), columns, rows),
            forall|p: Pos| #[trigger] in_bounds(columns, rows, p) ==> b0[p.0 as int][p.1 as int].value is Number,
            forall|k: int| 0 <= k < mines@.len() ==> in_bounds(columns, rows, #[trigger] mines@[k]),
            mines@.no_duplicates(),
            0 <= i <= mines@.len(),
            count_cells(board_of(b@), mined()) == count_cells(b0, mined()) + i,
            forall|p: Pos| #[trigger]
                in_bounds(columns, rows, p) ==> cell_at(board_of(b@), p).status == cell_at(b0, p).status
                    && (cell_at(board_of(b@), p).value is Mined <==> mines@.take(i as int).contains(p))
                    && (!mines@.take(i as int).contains(p) ==> cell_at(board_of(b@), p) == cell_at(b0, p)),
        decreases mines@.len() - i,
    {
        let p = mines[i];
        let ghost before = board_of(b@);
        assert(in_bounds(columns, rows, mines@[i as int]));
        assert(!mines@.take(i as int).contains(p)) by {
            if mines@.take(i as int).contains(p) {
                let k = choose|k: int| 0 <= k < i && mines@.take(i as int)[k] == p;
                assert(mines@[k] == mines@[i as int]);
            }
        }
        assert(b@[p.0 as int]@.len() == rows) by {
            assert(board_of(b@)[p.0 as int].len() == rows);
        }
        set_value(b, p, CellValue::Mined);
        proof {
            lemma_count_update(
                before,
                p,
                Cell { status: cell_at(before, p).status, value: CellValue::Mined },
                mined(),
            );
            let t0 = mines@.take(i as int);
            let t1 = mines@.take(i + 1);
            assert(t1 == t0.push(p));
            let nb = board_of(b@);
            assert forall|q: Pos| #[trigger] in_bounds(columns, rows, q) implies cell_at(nb, q).status
                == cell_at(b0, q).status && (cell_at(nb, q).value is Mined <==> t1.contains(q)) && (
            !t1.contains(q) ==> cell_at(nb, q) == cell_at(b0, q)) by {
                assert(t1.contains(q) <==> (t0.contains(q) || q == p)) by {
                    if t1.contains(q) && q != p {
                        let k = choose|k: int| 0 <= k < t1.len() && t1[k] == q;
                        assert(t0[k] == q);
                    }
                    if t0.contains(q) {
                        let k = choose|k: int| 0 <= k < t0.len() && t0[k] == q;
                        assert(t1[k] == q);
                    }
                    assert(t1[i as int] == p);
                }
                assert(in_bounds(columns, rows, q));
                assert(cell_at(before, q).status == cell_at(b0, q).status);
            }
            assert(shaped(nb, columns, rows)) by {
                assert forall|x: int| 0 <= x < columns implies #[trigger] nb[x].len() == rows by {
                    assert(before[x].len() == rows);
                }
            }
        }
        i = i + 1;
    }
    assert(mines@.take(mines@.len() as int) == mines@);
}

/// The number of mined cells among `cells`.
fn count_mines(b: &Vec<Vec<Cell>>, columns: usize, rows: usize, cells: &Vec<Pos>) -> (r: u8)
    requires
        shaped(board_of(b@), columns, rows),
        forall|i: int| 0 <= i < cells@.len() ==> in_bounds(columns, rows, #[trigger] cells@[i]),
        cells@.len() <= 8,
    ensures
        r == mines_among(board_of(b@), cells@),
{
    let mut r: u8 = 0;
    let mut k: usize = 0;
    while k < cells.len()
        invariant
            shaped(board_of(b@), columns, rows),
            forall|i: int| 0 <= i < cells@.len() ==> in_bounds(columns, rows, #[trigger] cells@[i]),
            cells@.len() <= 8,
            0 <= k <= cells@.len(),
            r == mines_among(board_of(b@), cells@.take(k as int)),
            r <= k,
        decreases cells@.len() - k,
    {
        let q = cells[k];
        assert(cells@.take(k + 1).drop_last() == cells@.take(k as int));
        assert(in_bounds(columns, rows, cells@[k as int]));
        assert(b@[q.0 as int]@.len() == rows) by {
            assert(board_of(b@)[q.0 as int].len() == rows);
        }
        if matches!(b[q.0][q.1].value, CellValue::Mined) {
            r = r + 1;
        }
        k = k + 1;
    }
    assert(cells@.take(cells@.len() as int) == cells@);
    r
}

/// `b` keeps the statuses of `b0` and its mines where they are.
pub open spec fn same_layout(b: Board, b0: Board, columns: usize, rows: usize) -> bool {
    forall|p: Pos| #[trigger]
        in_bounds(columns, rows, p) ==> cell_at(b, p).status == cell_at(b0, p).status && (cell_at(
            b,
            p,
        ).value is Mined <==> cell_at(b0, p).value is Mined)
}

/// Each cell of `b` without a mine before `(x, y)`, column by column, holds the
/// number of mines around it in `b0`.
spec fn numbered_before(b: Board, b0: Board, columns: usize, rows: usize, x: usize, y: usize) -> bool {
    forall|p: Pos| #[trigger]
        in_bounds(columns, rows, p) && (p.0 < x || (p.0 == x && p.1 < y)) && cell_at(b, p).value is Number
            ==> cell_at(b, p).value->Number_0 == mines_around(b0, columns, rows, p.0, p.1)
}

proof fn lemma_same_mines_around(b: Board, b0: Board, columns: usize, rows: usize, x: usize, y: usize)
    requires
        same_layout(b, b0, columns, rows),
        in_bounds(columns, rows, (x, y)),
    ensures
        mines_around(b, columns, rows, x, y) == mines_around(b0, columns, rows, x, y),
{
    let s = neighbor_seq(columns, rows, x, y);
    lemma_neighbors_in_grid(columns, rows, x, y);
    assert forall|i: int| 0 <= i < s.len() implies (cell_at(b, #[trigger] s[i]).value is Mined) == (
    cell_at(b0, s[i]).value is Mined) by {
        assert(s.contains(s[i]));
        assert(in_bounds(columns, rows, s[i]));
    }
    lemma_mines_among_ext(b, b0, s);
}

/// Gives each cell without a mine the number of mines around it.
pub fn add_numbers(b: &mut Vec<Vec<Cell>>, columns: usize, rows: usize)
    requires
        shaped(board_of(old(b)@), columns, rows),
    ensures
        shaped(board_of(final(b)@), columns, rows),
        same_layout(board_of(final(b)@), board_of(old(b)@), columns, rows),
        numbers_correct(board_of(final(b)@), columns, rows),
        count_cells(board_of(final(b)@), mined()) == count_cells(board_of(old(b)@), mined()),
{
    let ghost b0 = board_of(b@);
    let mut x: usize = 0;
    while x < columns
        invariant
            x <= columns,
            shaped(b0, columns, rows),
            shaped(board_of(b@), columns, rows),
            same_layout(board_of(b@), b0, columns, rows),
            numbered_before(board_of(b@), b0, columns, rows, x, 0),
        decreases columns - x,
    {
        let mut y: usize = 0;
        while y < rows
            invariant
                x < columns,
                y <= rows,
                shaped(b0, columns, rows),
                shaped(board_of(b@), columns, rows),
                same_layout(board_of(b@), b0, columns, rows),
                numbered_before(board_of(b@), b0, columns, rows, x, y),
            decreases rows - y,
        {
            let ghost before = board_of(b@);
            assert(b@[x as int]@.len() == rows) by {
                assert(before[x as int].len() == rows);
            }
            if !matches!(b[x][y].value, CellValue::Mined) {
                let neighbors = with_surrounding_cells(x, y, columns, rows);
                let n = count_mines(b, columns, rows, &neighbors);
                proof {
                    lemma_same_mines_around(before, b0, columns, rows, x, y);
                }
                set_value(b, (x, y), CellValue::Number(n));
                proof {
                    let nb = board_of(b@);
                    assert(shaped(nb, columns, rows)) by {
                        assert forall|i: int| 0 <= i < columns implies #[trigger] nb[i].len() == rows by {
                            assert(before[i].len() == rows);
                        }
                    }
                    assert forall|p: Pos| #[trigger] in_bounds(columns, rows, p) implies cell_at(nb, p).status
                        == cell_at(b0, p).status && (cell_at(nb, p).value is Mined <==> cell_at(
                        b0,
                        p,
                    ).value is Mined) by {
                        assert(in_bounds(columns, rows, p));
                    }
                    assert forall|p: Pos| #[trigger]
                        in_bounds(columns, rows, p) && (p.0 < x || (p.0 == x && p.1 < y + 1))
                            && cell_at(nb, p).value is Number implies cell_at(nb, p).value->Number_0
                        == mines_around(b0, columns, rows, p.0, p.1) by {
                        assert(in_bounds(columns, rows, p));
                    }
                }
            } else {
                assert forall|p: Pos| #[trigger]
                    in_bounds(columns, rows, p) && (p.0 < x || (p.0 == x && p.1 < y + 1))
                        && cell_at(before, p).value is Number implies cell_at(before, p).value->Number_0
                    == mines_around(b0, columns, rows, p.0, p.1) by {
                    assert(in_bounds(columns, rows, p));
                }
            }
            y = y + 1;
        }
        assert forall|p: Pos| #[trigger]
            in_bounds(columns, rows, p) && (p.0 < x + 1 || (p.0 == x + 1 && p.1 < 0)) && cell_at(
                board_of(b@),
                p,
            ).value is Number implies cell_at(board_of(b@), p).value->Number_0 == mines_around(
            b0,
            columns,
            rows,
            p.0,
            p.1,
        ) by {
            assert(in_bounds(columns, rows, p));
        }
        x = x + 1;
    }
    let ghost bf = board_of(b@);
    assert forall|x: usize, y: usize|
        #![trigger cell_at(bf, (x, y))]
        in_bounds(columns, rows, (x, y)) && cell_at(bf, (x, y)).value is Number implies cell_at(
            bf,
            (x, y),
        ).value->Number_0 == mines_around(bf, columns, rows, x, y) by {
        assert(in_bounds(columns, rows, (x, y)));
        lemma_same_mines_around(bf, b0, columns, rows, x, y);
    }
    proof {
        assert forall|i: int, j: int| 0 <= i < bf.len() && 0 <= j < bf[i].len() implies mined()(
            #[trigger] bf[i][j],
        ) == mined()(b0[i][j]) by {
            assert(in_bounds(columns, rows, (i as usize, j as usize)));
        }
        lemma_count_ext(bf, b0, mined(), mined());
    }
}

} // verus!
