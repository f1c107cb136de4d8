//! Laws that relate the game's operations.
use vstd::prelude::*;
use crate::grid::{Pos, lemma_neighbors_in_grid, neighbor_seq};
use crate::board::{
    CellValue, count_cells, flagged, lemma_count_ext, lemma_count_le, revealed_safe, safe,
};
use crate::fill::newly_revealed;
use crate::game::GameView;

verus! {

/// Revealing a cell a second time changes nothing: the first reveal already
/// opened everything the second would.
pub proof fn lemma_reveal_idempotent(g: GameView, p: Pos)
    requires
        g.wf(),
        g.in_bounds(p),
    ensures
        g.revealed(p).revealed(p) == g.revealed(p),
{
    if g.active() && g.cell(p).status is Covered && g.cell(p).value is Number {
        let path = seq![p];
        assert(path[0] == p);
        assert(g.fill_path(path));
        assert(g.fill_region(p).contains(p));
        assert(g.board[p.0 as int].len() == g.rows);
    }
}

/// Revealing a covered cell without a mine opens a connected region: every
/// newly revealed cell is reached by a flood fill from it, and the region is
/// maximal: each neighbour of a newly revealed zero cell that carries no flag
/// is revealed.
pub proof fn lemma_reveal_region(g: GameView, p: Pos)
    requires
        g.wf(),
        g.in_bounds(p),
        g.active(),
        g.cell(p).status is Covered,
        g.cell(p).value is Number,
    ensures
        forall|q: Pos| #[trigger]
            g.in_bounds(q) && newly_revealed(g.board, g.revealed(p).board, q) ==> g.reaches(p, q),
        forall|a: Pos, q: Pos|
            g.in_bounds(a) && newly_revealed(g.board, g.revealed(p).board, a) && g.cell(a).value
                == CellValue::Number(0) && #[trigger] neighbor_seq(g.columns, g.rows, a.0, a.1).contains(q)
                && !(g.cell(q).status is Flagged) ==> g.revealed(p).cell(q).status is Revealed,
{
    let g2 = g.revealed(p);
    assert forall|q: Pos| #[trigger]
        g.in_bounds(q) && newly_revealed(g.board, g2.board, q) implies g.reaches(p, q) by {
        assert(g.board[q.0 as int].len() == g.rows);
    }
    assert forall|a: Pos, q: Pos|
        g.in_bounds(a) && newly_revealed(g.board, g2.board, a) && g.cell(a).value == CellValue::Number(0)
            && #[trigger] neighbor_seq(g.columns, g.rows, a.0, a.1).contains(q) && !(g.cell(
            q,
        ).status is Flagged) implies g2.cell(q).status is Revealed by {
        lemma_neighbors_in_grid(g.columns, g.rows, a.0, a.1);
        assert(g.board[a.0 as int].len() == g.rows);
        assert(g.board[q.0 as int].len() == g.rows);
        if g.cell(q).status is Covered {
            g.lemma_reach_step(p, a, q);
        }
    }
}

/// A reveal loses the game exactly when the cell it opens holds a mine.
pub proof fn lemma_lost_iff_mine(g: GameView, p: Pos)
    requires
        g.wf(),
        g.in_bounds(p),
        g.active(),
        g.cell(p).status is Covered,
    ensures
        g.revealed(p).status is Lost <==> g.cell(p).value is Mined,
{
}

/// A game is won exactly when the revealed cells number all the cells without
/// a mine, that is, when every cell without a mine is revealed.
pub proof fn lemma_won_iff_all_revealed(g: GameView)
    requires
        g.wf(),
    ensures
        g.status is Won <==> g.revealed_count == g.safe_total(),
        g.status is Won <==> forall|p: Pos| #[trigger]
            g.in_bounds(p) && g.cell(p).value is Number ==> g.cell(p).status is Revealed,
{
    g.lemma_safe_count();
    lemma_count_le(g.board, revealed_safe(), safe());
    if forall|p: Pos| #[trigger]
        g.in_bounds(p) && g.cell(p).value is Number ==> g.cell(p).status is Revealed {
        assert forall|x: int, y: int| 0 <= x < g.board.len() && 0 <= y < g.board[x].len() implies safe()(
            #[trigger] g.board[x][y],
        ) == revealed_safe()(g.board[x][y]) by {
            assert(g.in_bounds((x as usize, y as usize)));
        }
        lemma_count_ext(g.board, g.board, safe(), revealed_safe());
    }
    if g.status is Won {
        assert forall|p: Pos| #[trigger]
            g.in_bounds(p) && g.cell(p).value is Number implies g.cell(p).status is Revealed by {
            assert(g.board[p.0 as int].len() == g.rows);
        }
    }
}

/// Once the game is lost or won, no move changes anything.
pub proof fn lemma_over_is_frozen(g: GameView, p: Pos, down: bool)
    requires
        g.status is Lost || g.status is Won,
    ensures
        g.revealed(p) == g,
        g.toggled(p) == g,
        g.chorded(p) == g,
        g.pressed(down) == g,
{
}

/// The game after toggling the flags of the cells listed in `s`, one after the
/// other.
pub open spec fn toggle_each(g: GameView, s: Seq<Pos>) -> GameView
    decreases s.len(),
{
    if s.len() == 0 {
        g
    } else {
        toggle_each(g, s.drop_last()).toggled(s.last())
    }
}

/// However flags are toggled, the flags never outnumber the mines, and they
/// number exactly the flagged cells.
pub proof fn lemma_flags_within_budget(g: GameView, s: Seq<Pos>)
    requires
        g.wf(),
        forall|i: int| 0 <= i < s.len() ==> g.in_bounds(#[trigger] s[i]),
    ensures
        toggle_each(g, s).wf(),
        toggle_each(g, s).flag_count <= g.mine_count,
        toggle_each(g, s).flag_count == count_cells(toggle_each(g, s).board, flagged()),
        toggle_each(g, s).mine_count == g.mine_count,
        toggle_each(g, s).columns == g.columns,
        toggle_each(g, s).rows == g.rows,
    decreases s.len(),
{
    if s.len() > 0 {
        let d = s.drop_last();
        assert forall|i: int| 0 <= i < d.len() implies g.in_bounds(#[trigger] d[i]) by {
            assert(d[i] == s[i]);
        }
        lemma_flags_within_budget(g, d);
        let h = toggle_each(g, d);
        assert(g.in_bounds(s[s.len() - 1]));
        h.lemma_toggled_wf(s.last());
    }
}

} // verus!
