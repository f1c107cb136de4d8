//! The flood fill behind `Game::reveal_cell`: the board it leaves, and the
//! invariant of its work list with one lemma for each step.
use vstd::prelude::*;
use crate::grid::{Pos, lemma_neighbors_in_grid, neighbor_seq};
use crate::board::{
    Board, Cell, CellStatus, CellValue, cell_at, count_cells, covered, flagged, lemma_count_le,
    lemma_count_split, lemma_total_cells, mined, numbers_correct, revealed_mine, revealed_safe,
    safe, shaped,
};
use crate::game::{GameStatus, GameView};

verus! {

/// `b` with every cell at a position of `region` revealed.
pub open spec fn reveal_region(b: Board, region: Set<Pos>) -> Board {
    Seq::new(
        b.len(),
        |x: int|
            Seq::new(
                b[x].len(),
                |y: int|
                    if region.contains((x as usize, y as usize)) {
                        Cell { status: CellStatus::Revealed, value: b[x][y].value }
                    } else {
                        b[x][y]
                    },
            ),
    )
}

/// The cell at `p` was covered in `b0` and is revealed in `b`.
pub open spec fn newly_revealed(b0: Board, b: Board, p: Pos) -> bool {
    cell_at(b0, p).status is Covered && cell_at(b, p).status is Revealed
}

/// Where the cells newly revealed in `b` include `start` and, with each zero
/// cell, all its neighbours that were covered, they include every cell that a
/// flood fill from `start` reaches.
pub proof fn lemma_fill_complete(g0: GameView, b: Board, start: Pos, path: Seq<Pos>)
    requires
        g0.fill_path(path),
        path[0] == start,
        newly_revealed(g0.board, b, start),
        forall|p: Pos, q: Pos|
            g0.in_bounds(p) && newly_revealed(g0.board, b, p) && g0.cell(p).value
                == CellValue::Number(0) && #[trigger] neighbor_seq(g0.columns, g0.rows, p.0, p.1).contains(q)
                && g0.cell(q).status is Covered ==> cell_at(b, q).status is Revealed,
    ensures
        newly_revealed(g0.board, b, path.last()),
    decreases path.len(),
{
    if path.len() > 1 {
        let d = path.drop_last();
        assert forall|i: int| 0 <= i < d.len() implies g0.in_bounds(#[trigger] d[i]) && g0.cell(
            d[i],
        ).status is Covered by {
            assert(d[i] == path[i]);
        }
        assert forall|i: int| 0 <= i < d.len() - 1 implies g0.cell(#[trigger] d[i]).value
            == CellValue::Number(0) && neighbor_seq(g0.columns, g0.rows, d[i].0, d[i].1).contains(
            d[i + 1],
        ) by {
            assert(d[i] == path[i]);
            assert(d[i + 1] == path[i + 1]);
        }
        lemma_fill_complete(g0, b, start, d);
        let n = path.len();
        assert(path[n - 2] == d.last());
        assert(g0.in_bounds(path[n - 2]));
        assert(g0.cell(path[n - 1]).status is Covered);
    }
}

/// A game whose board is `g0`'s with exactly the region of a flood fill from
/// `start` newly revealed, and whose counters and status follow, is what
/// revealing `start` makes of `g0`.
pub proof fn lemma_fill_result(g0: GameView, g: GameView, start: Pos)
    requires
        g0.wf(),
        g0.active(),
        g0.in_bounds(start),
        g0.cell(start).status is Covered,
        g0.cell(start).value is Number,
        g.columns == g0.columns,
        g.rows == g0.rows,
        g.mine_count == g0.mine_count,
        g.flag_count == g0.flag_count,
        shaped(g.board, g0.columns, g0.rows),
        g.revealed_count == count_cells(g.board, revealed_safe()),
        g.status == if g.revealed_count == g0.safe_total() {
            GameStatus::Won
        } else {
            g0.status
        },
        forall|p: Pos| #[trigger]
            g0.in_bounds(p) ==> g.cell(p) == g0.cell(p) || (newly_revealed(g0.board, g.board, p)
                && g.cell(p).value == g0.cell(p).value && g0.fill_region(start).contains(p)),
        forall|p: Pos| #[trigger]
            g0.fill_region(start).contains(p) ==> newly_revealed(g0.board, g.board, p),
    ensures
        g == g0.revealed(start),
{
    let region = g0.fill_region(start);
    let b = reveal_region(g0.board, region);
    assert forall|i: int, j: int| 0 <= i < g.board.len() && 0 <= j < g.board[i].len() implies g.board[i][j] == b[i][j] by {
        let p = (i as usize, j as usize);
        assert(g0.in_bounds(p));
        assert(g0.board[i].len() == g0.rows);
        if region.contains(p) {
            assert(newly_revealed(g0.board, g.board, p));
        }
    }
    assert(g.board =~~= b);
}

/// `stack` grew from `s0` by cells of `cells` that are covered in `g`, and
/// holds every such cell.
#[verifier::opaque]
pub(crate) open spec fn pushed_covered(g: GameView, cells: Seq<Pos>, s0: Seq<Pos>, stack: Seq<Pos>) -> bool {
    &&& stack.len() >= s0.len()
    &&& forall|i: int| 0 <= i < s0.len() ==> #[trigger] stack[i] == s0[i]
    &&& forall|i: int|
        s0.len() <= i < stack.len() ==> cells.contains(#[trigger] stack[i]) && g.cell(
            stack[i],
        ).status is Covered
    &&& forall|q: Pos| #[trigger] cells.contains(q) && g.cell(q).status is Covered ==> stack.contains(q)
}

/// What a flood fill from `start` on `g0` keeps of the game, having come as far as `g`.
#[verifier::opaque]
pub(crate) open spec fn fill_frame(g0: GameView, start: Pos, g: GameView) -> bool {
    &&& g0.wf()
    &&& g0.active()
    &&& g0.in_bounds(start)
    &&& g0.cell(start).status is Covered
    &&& g0.cell(start).value is Number
    &&& g.columns == g0.columns
    &&& g.rows == g0.rows
    &&& g.mine_count == g0.mine_count
    &&& g.flag_count == g0.flag_count
    &&& g.status == g0.status
    &&& shaped(g.board, g0.columns, g0.rows)
    &&& numbers_correct(g.board, g0.columns, g0.rows)
    &&& count_cells(g.board, mined()) == g0.mine_count
    &&& count_cells(g.board, flagged()) == g0.flag_count
    &&& count_cells(g.board, revealed_mine()) == 0
    &&& g.revealed_count == count_cells(g.board, revealed_safe())
    &&& g.revealed_count < g0.safe_total()
}

/// Each cell of `g` is as in `g0`, or newly revealed within the fill's region.
#[verifier::opaque]
pub(crate) open spec fn fill_cells(g0: GameView, start: Pos, g: GameView) -> bool {
    forall|p: Pos| #[trigger]
        g0.in_bounds(p) ==> g.cell(p) == g0.cell(p) || (newly_revealed(g0.board, g.board, p)
            && g.cell(p).value == g0.cell(p).value && g0.fill_region(start).contains(p))
}

/// Each cell still to visit lies in the fill's region.
#[verifier::opaque]
pub(crate) open spec fn fill_stack(g0: GameView, start: Pos, stack: Seq<Pos>) -> bool {
    forall|i: int|
        0 <= i < stack.len() ==> g0.in_bounds(#[trigger] stack[i]) && g0.fill_region(
            start,
        ).contains(stack[i])
}

/// The start and each covered neighbour of a newly revealed zero cell are
/// revealed or still to visit.
#[verifier::opaque]
pub(crate) open spec fn fill_closed(g0: GameView, start: Pos, g: GameView, stack: Seq<Pos>) -> bool {
    &&& forall|p: Pos, q: Pos|
        g0.in_bounds(p) && newly_revealed(g0.board, g.board, p) && g0.cell(p).value
            == CellValue::Number(0) && #[trigger] neighbor_seq(g0.columns, g0.rows, p.0, p.1).contains(
            q,
        ) && g0.cell(q).status is Covered ==> g.cell(q).status is Revealed || stack.contains(q)
    &&& newly_revealed(g0.board, g.board, start) || stack.contains(start)
}

/// The state of a flood fill from `start` on `g0` that has come as far as `g`,
/// with `stack` still to visit.
pub(crate) open spec fn fill_inv(g0: GameView, start: Pos, g: GameView, stack: Seq<Pos>) -> bool {
    &&& fill_frame(g0, start, g)
    &&& fill_cells(g0, start, g)
    &&& fill_stack(g0, start, stack)
    &&& fill_closed(g0, start, g, stack)
}

pub(crate) proof fn lemma_fill_init(g0: GameView, start: Pos)
    requires
        g0.wf(),
        g0.active(),
        g0.in_bounds(start),
        g0.cell(start).status is Covered,
        g0.cell(start).value is Number,
    ensures
        fill_inv(g0, start, g0, seq![start]),
{
    reveal(fill_frame);
    reveal(fill_cells);
    reveal(fill_stack);
    reveal(fill_closed);
    let path = seq![start];
    assert(path[0] == start);
    assert(g0.fill_path(path));
    assert(g0.fill_region(start).contains(start));
    assert(seq![start][0] == start);
    assert(g0.revealed_count < g0.safe_total());
}

pub(crate) proof fn lemma_fill_bounds(g0: GameView, start: Pos, g: GameView, stack: Seq<Pos>)
    requires
        fill_inv(g0, start, g, stack),
    ensures
        shaped(g.board, g.columns, g.rows),
        forall|i: int| 0 <= i < stack.len() ==> g.in_bounds(#[trigger] stack[i]),
        g.revealed_count < g0.safe_total(),
        g0.safe_total() <= usize::MAX,
        g.columns == g0.columns,
        g.rows == g0.rows,
{
    reveal(fill_frame);
    reveal(fill_cells);
    reveal(fill_stack);
    reveal(fill_closed);
}

pub(crate) proof fn lemma_fill_skip(g0: GameView, start: Pos, g: GameView, stack: Seq<Pos>)
    requires
        fill_inv(g0, start, g, stack),
        stack.len() > 0,
        !(g.cell(stack.last()).status is Covered),
    ensures
        fill_inv(g0, start, g, stack.drop_last()),
{
    reveal(fill_frame);
    reveal(fill_cells);
    reveal(fill_stack);
    reveal(fill_closed);
    let p = stack.last();
    let d = stack.drop_last();
    assert(stack[stack.len() - 1] == p);
    assert forall|q: Pos| stack.contains(q) implies q == p || d.contains(q) by {
        let i = choose|i: int| 0 <= i < stack.len() && stack[i] == q;
        if i < stack.len() - 1 {
            assert(d[i] == q);
        }
    }
}

/// `g` with the cell at `p` revealed and counted.
pub(crate) open spec fn fill_step(g: GameView, p: Pos) -> GameView {
    GameView {
        revealed_count: (g.revealed_count + 1) as usize,
        ..g.with_status(p, CellStatus::Revealed)
    }
}

/// What revealing the next covered cell of the stack does to the fill's counts.
pub(crate) proof fn lemma_fill_step(g0: GameView, start: Pos, g: GameView, stack: Seq<Pos>)
    requires
        fill_inv(g0, start, g, stack),
        stack.len() > 0,
        g.cell(stack.last()).status is Covered,
    ensures
        ({
            let p = stack.last();
            let g2 = fill_step(g, p);
            &&& g0.in_bounds(p)
            &&& g0.fill_region(start).contains(p)
            &&& g.cell(p) == g0.cell(p)
            &&& g0.cell(p).value is Number
            &&& shaped(g2.board, g0.columns, g0.rows)
            &&& numbers_correct(g2.board, g0.columns, g0.rows)
            &&& forall|q: Pos| #[trigger]
                g0.in_bounds(q) ==> g2.cell(q) == if q == p {
                    Cell { status: CellStatus::Revealed, value: g0.cell(p).value }
                } else {
                    g.cell(q)
                }
            &&& count_cells(g2.board, mined()) == g0.mine_count
            &&& count_cells(g2.board, flagged()) == g0.flag_count
            &&& count_cells(g2.board, revealed_mine()) == 0
            &&& count_cells(g2.board, covered()) < count_cells(g.board, covered())
            &&& g2.revealed_count == count_cells(g2.board, revealed_safe())
            &&& g2.revealed_count <= g0.safe_total()
            &&& count_cells(g2.board, safe()) == g0.safe_total()
        }),
{
    reveal(fill_frame);
    reveal(fill_cells);
    reveal(fill_stack);
    reveal(fill_closed);
    let p = stack.last();
    assert(stack[stack.len() - 1] == p);
    g0.lemma_region_safe(start, p);
    g.lemma_with_status(p, CellStatus::Revealed);
    let g2 = fill_step(g, p);
    lemma_count_split(g2.board, mined(), safe());
    lemma_total_cells(g2.board, g0.columns, g0.rows);
    lemma_count_le(g2.board, revealed_safe(), safe());
}

/// Revealing the next covered cell of the stack covers one cell fewer, and
/// counts no more cells than there are without a mine.
pub(crate) proof fn lemma_fill_progress(g0: GameView, start: Pos, g: GameView, stack: Seq<Pos>)
    requires
        fill_inv(g0, start, g, stack),
        stack.len() > 0,
        g.cell(stack.last()).status is Covered,
    ensures
        count_cells(fill_step(g, stack.last()).board, covered()) < count_cells(g.board, covered()),
        g.revealed_count + 1 <= g0.safe_total(),
        g.cell(stack.last()) == g0.cell(stack.last()),
{
    lemma_fill_step(g0, start, g, stack);
    reveal(fill_frame);
}

/// Revealing the next covered cell of the stack wins where it is the last cell
/// without a mine.
pub(crate) proof fn lemma_fill_win(g0: GameView, start: Pos, g: GameView, stack: Seq<Pos>)
    requires
        fill_inv(g0, start, g, stack),
        stack.len() > 0,
        g.cell(stack.last()).status is Covered,
        fill_step(g, stack.last()).revealed_count == g0.safe_total(),
    ensures
        (GameView { status: GameStatus::Won, ..fill_step(g, stack.last()) }) == g0.revealed(start),
        g0.revealed(start).wf(),
{
    lemma_fill_step(g0, start, g, stack);
    reveal(fill_frame);
    reveal(fill_cells);
    reveal(fill_stack);
    reveal(fill_closed);
    let p = stack.last();
    let g2 = fill_step(g, p);
    let gw = GameView { status: GameStatus::Won, ..g2 };
    let region = g0.fill_region(start);
    lemma_count_le(g2.board, revealed_safe(), safe());
    assert forall|q: Pos| #[trigger] region.contains(q) implies newly_revealed(g0.board, gw.board, q) by {
        g0.lemma_region_safe(start, q);
        assert(g2.board[q.0 as int].len() == g0.rows);
    }
    assert forall|q: Pos| #[trigger]
        g0.in_bounds(q) implies gw.cell(q) == g0.cell(q) || (newly_revealed(g0.board, gw.board, q)
            && gw.cell(q).value == g0.cell(q).value && region.contains(q)) by {
        if q != p {
            assert(g.cell(q) == g0.cell(q) || (newly_revealed(g0.board, g.board, q)
                && g.cell(q).value == g0.cell(q).value && region.contains(q)));
        }
    }
    lemma_fill_result(g0, gw, start);
}

pub(crate) proof fn lemma_fill_continue_cells(g0: GameView, start: Pos, g: GameView, p: Pos)
    requires
        fill_cells(g0, start, g),
        g0.in_bounds(p),
        g0.fill_region(start).contains(p),
        g.cell(p) == g0.cell(p),
        g0.cell(p).status is Covered,
        forall|q: Pos| #[trigger]
            g0.in_bounds(q) ==> fill_step(g, p).cell(q) == if q == p {
                Cell { status: CellStatus::Revealed, value: g0.cell(p).value }
            } else {
                g.cell(q)
            },
    ensures
        fill_cells(g0, start, fill_step(g, p)),
{
    reveal(fill_cells);
    let g2 = fill_step(g, p);
    assert forall|q: Pos| #[trigger] g0.in_bounds(q) implies g2.cell(q) == g0.cell(q) || (
    newly_revealed(g0.board, g2.board, q) && g2.cell(q).value == g0.cell(q).value
        && g0.fill_region(start).contains(q)) by {
        if q != p {
            assert(g.cell(q) == g0.cell(q) || (newly_revealed(g0.board, g.board, q)
                && g.cell(q).value == g0.cell(q).value && g0.fill_region(start).contains(q)));
        }
    }
}

pub(crate) proof fn lemma_fill_continue_stack(g0: GameView, start: Pos, g2: GameView, p: Pos, d: Seq<Pos>, s2: Seq<Pos>)
    requires
        fill_stack(g0, start, d),
        fill_cells(g0, start, g2),
        g0.wf(),
        g0.in_bounds(p),
        g0.fill_region(start).contains(p),
        g0.cell(p).value != CellValue::Number(0) ==> s2 == d,
        g0.cell(p).value == CellValue::Number(0) ==> pushed_covered(
            g2,
            neighbor_seq(g0.columns, g0.rows, p.0, p.1),
            d,
            s2,
        ),
    ensures
        fill_stack(g0, start, s2),
{
    reveal(fill_stack);
    reveal(fill_cells);
    reveal(pushed_covered);
    if g0.cell(p).value == CellValue::Number(0) {
        let nb = neighbor_seq(g0.columns, g0.rows, p.0, p.1);
        lemma_neighbors_in_grid(g0.columns, g0.rows, p.0, p.1);
        assert forall|i: int| 0 <= i < s2.len() implies g0.in_bounds(#[trigger] s2[i])
            && g0.fill_region(start).contains(s2[i]) by {
            if i < d.len() {
                assert(s2[i] == d[i]);
            } else {
                let q = s2[i];
                assert(nb.contains(q));
                assert(g0.in_bounds(q));
                assert(g2.cell(q).status is Covered);
                assert(g2.cell(q) == g0.cell(q));
                g0.lemma_reach_step(start, p, q);
            }
        }
    }
}

pub(crate) proof fn lemma_fill_continue_closed(g0: GameView, start: Pos, g: GameView, stack: Seq<Pos>, s2: Seq<Pos>)
    requires
        fill_closed(g0, start, g, stack),
        fill_cells(g0, start, fill_step(g, stack.last())),
        stack.len() > 0,
        g0.in_bounds(stack.last()),
        g.cell(stack.last()) == g0.cell(stack.last()),
        g0.cell(stack.last()).status is Covered,
        forall|q: Pos| #[trigger]
            g0.in_bounds(q) ==> fill_step(g, stack.last()).cell(q) == if q == stack.last() {
                Cell { status: CellStatus::Revealed, value: g0.cell(stack.last()).value }
            } else {
                g.cell(q)
            },
        g0.cell(stack.last()).value != CellValue::Number(0) ==> s2 == stack.drop_last(),
        g0.cell(stack.last()).value == CellValue::Number(0) ==> pushed_covered(
            fill_step(g, stack.last()),
            neighbor_seq(g0.columns, g0.rows, stack.last().0, stack.last().1),
            stack.drop_last(),
            s2,
        ),
    ensures
        fill_closed(g0, start, fill_step(g, stack.last()), s2),
{
    reveal(fill_closed);
    reveal(fill_cells);
    reveal(pushed_covered);
    let p = stack.last();
    let g2 = fill_step(g, p);
    let d = stack.drop_last();
    let nb = neighbor_seq(g0.columns, g0.rows, p.0, p.1);
    assert(stack[stack.len() - 1] == p);
    assert forall|q: Pos| #[trigger] d.contains(q) implies s2.contains(q) by {
        let i = choose|i: int| 0 <= i < d.len() && d[i] == q;
        assert(s2[i] == d[i]);
    }
    assert forall|q: Pos| #[trigger] stack.contains(q) implies q == p || d.contains(q) by {
        let i = choose|i: int| 0 <= i < stack.len() && stack[i] == q;
        if i < stack.len() - 1 {
            assert(d[i] == q);
        }
    }
    assert forall|a: Pos, q: Pos|
        g0.in_bounds(a) && newly_revealed(g0.board, g2.board, a) && g0.cell(a).value
            == CellValue::Number(0) && #[trigger] neighbor_seq(g0.columns, g0.rows, a.0, a.1).contains(
            q,
        ) && g0.cell(q).status is Covered implies g2.cell(q).status is Revealed || s2.contains(q) by {
        lemma_neighbors_in_grid(g0.columns, g0.rows, a.0, a.1);
        assert(g0.in_bounds(q));
        if a == p {
            if !(g2.cell(q).status is Revealed) {
                assert(g2.cell(q) == g0.cell(q));
                assert(nb.contains(q));
            }
        } else {
            assert(g2.cell(a) == g.cell(a));
            assert(newly_revealed(g0.board, g.board, a));
            assert(g.cell(q).status is Revealed || stack.contains(q));
            if q != p {
                assert(g2.cell(q) == g.cell(q));
            }
        }
    }
}

/// Revealing the next covered cell of the stack and pushing its covered
/// neighbours where it is a zero cell keeps the fill's invariant.
pub(crate) proof fn lemma_fill_continue(g0: GameView, start: Pos, g: GameView, stack: Seq<Pos>, s2: Seq<Pos>)
    requires
        fill_inv(g0, start, g, stack),
        stack.len() > 0,
        g.cell(stack.last()).status is Covered,
        fill_step(g, stack.last()).revealed_count < g0.safe_total(),
        g0.cell(stack.last()).value != CellValue::Number(0) ==> s2 == stack.drop_last(),
        g0.cell(stack.last()).value == CellValue::Number(0) ==> pushed_covered(
            fill_step(g, stack.last()),
            neighbor_seq(g0.columns, g0.rows, stack.last().0, stack.last().1),
            stack.drop_last(),
            s2,
        ),
    ensures
        fill_inv(g0, start, fill_step(g, stack.last()), s2),
{
    lemma_fill_step(g0, start, g, stack);
    let p = stack.last();
    let g2 = fill_step(g, p);
    lemma_fill_continue_cells(g0, start, g, p);
    assert(fill_stack(g0, start, stack.drop_last())) by {
        reveal(fill_stack);
        assert forall|i: int| 0 <= i < stack.drop_last().len() implies #[trigger] stack.drop_last()[i] == stack[i] by {}
    }
    assert(g0.wf()) by {
        reveal(fill_frame);
    }
    lemma_fill_continue_stack(g0, start, g2, p, stack.drop_last(), s2);
    lemma_fill_continue_closed(g0, start, g, stack, s2);
    assert(fill_frame(g0, start, g2)) by {
        reveal(fill_frame);
    }
}

pub(crate) proof fn lemma_fill_done(g0: GameView, start: Pos, g: GameView)
    requires
        fill_inv(g0, start, g, Seq::empty()),
    ensures
        g == g0.revealed(start),
        g.wf(),
{
    reveal(fill_frame);
    reveal(fill_cells);
    reveal(fill_stack);
    reveal(fill_closed);
    let region = g0.fill_region(start);
    assert forall|q: Pos| #[trigger] region.contains(q) implies newly_revealed(g0.board, g.board, q) by {
        let path = choose|path: Seq<Pos>| #[trigger]
            g0.fill_path(path) && path[0] == start && path.last() == q;
        lemma_fill_complete(g0, g.board, start, path);
    }
    lemma_fill_result(g0, g, start);
}

} // verus!
