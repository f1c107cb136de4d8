//! The game engine: the live board, the game status and the counters, and the
//! operations that drive a game to a win or a loss.
use vstd::prelude::*;
use crate::grid::{Pos, in_bounds, lemma_neighbors_in_grid, neighbor_seq, with_surrounding_cells};
use crate::board::{
    Board, Cell, CellStatus, CellValue, cell_at, count_cells, covered, flagged, flags_among,
    lemma_count_split, lemma_count_update, lemma_no_mines_among, lemma_total_cells,
    safe, lemma_numbers_kept, mines_around, mined, numbers_correct, revealed_mine, revealed_safe,
    set_cell, shaped, board_of, new_board, place_mines, add_numbers, lemma_count_none,
};
use crate::fill::{
    fill_inv, fill_step, lemma_fill_bounds, lemma_fill_continue, lemma_fill_done, lemma_fill_init,
    lemma_fill_progress, lemma_fill_skip, lemma_fill_win, pushed_covered, reveal_region,
};
use rand::seq::SliceRandom;

verus! {

/// The state of play.
#[derive(Clone, Copy, Debug, PartialEq, Eq, Structural)]
pub enum GameStatus {
    Playing,
    /// A mouse button is held down; for the rules the same as `Playing`.
    Pressing,
    Lost,
    Won,
}

/// What the player asks of the game.
#[derive(Clone, Copy, Debug, PartialEq, Eq, Structural)]
pub enum Message {
    NewGame,
    Pressing(bool),
    Reveal(usize, usize),
    SpecialReveal(usize, usize),
    Flag(usize, usize),
}

/// The cell that a message names, if any, lies on the board of `g`.
pub open spec fn message_in_bounds(g: GameView, m: Message) -> bool {
    match m {
        Message::Reveal(x, y) => g.in_bounds((x, y)),
        Message::SpecialReveal(x, y) => g.in_bounds((x, y)),
        Message::Flag(x, y) => g.in_bounds((x, y)),
        _ => true,
    }
}

/// Why a board cannot be set up.
#[derive(Clone, Copy, Debug, PartialEq, Eq, Structural)]
pub enum ConfigError {
    /// A board needs at least one row and one column.
    EmptyBoard,
    /// There must be fewer mines than cells.
    TooManyMines,
}

/// The mathematical model of a game.
pub struct GameView {
    pub board: Board,
    pub columns: usize,
    pub rows: usize,
    pub mine_count: usize,
    pub status: GameStatus,
    pub revealed_count: usize,
    pub flag_count: usize,
}

impl GameView {
    /// The game still accepts moves.
    pub open spec fn active(self) -> bool {
        self.status is Playing || self.status is Pressing
    }

    /// The number of cells without a mine: revealing them all wins.
    pub open spec fn safe_total(self) -> int {
        self.columns * self.rows - self.mine_count
    }

    pub open spec fn in_bounds(self, p: Pos) -> bool {
        in_bounds(self.columns, self.rows, p)
    }

    pub open spec fn cell(self, p: Pos) -> Cell {
        cell_at(self.board, p)
    }

    /// The invariant of a game.
    pub open spec fn wf(self) -> bool {
        &&& 0 < self.columns
        &&& 0 < self.rows
        &&& self.columns * self.rows <= usize::MAX
        &&& self.mine_count < self.columns * self.rows
        &&& shaped(self.board, self.columns, self.rows)
        &&& count_cells(self.board, mined()) == self.mine_count
        &&& numbers_correct(self.board, self.columns, self.rows)
        &&& self.flag_count == count_cells(self.board, flagged())
        &&& self.flag_count <= self.mine_count
        &&& self.revealed_count == count_cells(self.board, revealed_safe())
        &&& self.revealed_count <= self.safe_total()
        &&& count_cells(self.board, revealed_mine()) == if self.status is Lost {
            1nat
        } else {
            0nat
        }
        &&& (self.status is Won <==> self.revealed_count == self.safe_total())
    }

    /// A game as it starts: every cell covered, nothing counted, in play.
    pub open spec fn fresh(self) -> bool {
        &&& self.wf()
        &&& self.status is Playing
        &&& self.revealed_count == 0
        &&& self.flag_count == 0
        &&& forall|p: Pos| #[trigger] self.in_bounds(p) ==> self.cell(p).status is Covered
    }

    /// The game with the cell at `p` set to status `s`.
    pub open spec fn with_status(self, p: Pos, s: CellStatus) -> GameView {
        GameView {
            board: set_cell(self.board, p, Cell { status: s, value: self.cell(p).value }),
            ..self
        }
    }

    /// A fresh game of `columns` columns, `rows` rows and `mine_count` mines.
    pub open spec fn fresh_with(self, columns: usize, rows: usize, mine_count: usize) -> bool {
        &&& self.fresh()
        &&& self.columns == columns
        &&& self.rows == rows
        &&& self.mine_count == mine_count
    }

    /// Setting one cell's status keeps the board's shape, its values, and
    /// changes each count by what the old and the new cell add to it.
    pub proof fn lemma_with_status(self, p: Pos, s: CellStatus)
        requires
            shaped(self.board, self.columns, self.rows),
            numbers_correct(self.board, self.columns, self.rows),
            self.in_bounds(p),
        ensures
            ({
                let n = self.with_status(p, s);
                let c = Cell { status: s, value: self.cell(p).value };
                &&& shaped(n.board, self.columns, self.rows)
                &&& numbers_correct(n.board, self.columns, self.rows)
                &&& forall|q: Pos| #[trigger]
                    self.in_bounds(q) ==> n.cell(q) == if q == p {
                        c
                    } else {
                        self.cell(q)
                    }
                &&& count_cells(n.board, mined()) == count_cells(self.board, mined())
                &&& count_cells(n.board, flagged()) + (if self.cell(p).status is Flagged {
                    1int
                } else {
                    0int
                }) == count_cells(self.board, flagged()) + (if s is Flagged {
                    1int
                } else {
                    0int
                })
                &&& count_cells(n.board, covered()) + (if self.cell(p).status is Covered {
                    1int
                } else {
                    0int
                }) == count_cells(self.board, covered()) + (if s is Covered {
                    1int
                } else {
                    0int
                })
                &&& count_cells(n.board, revealed_safe()) + (if revealed_safe()(self.cell(p)) {
                    1int
                } else {
                    0int
                }) == count_cells(self.board, revealed_safe()) + (if revealed_safe()(c) {
                    1int
                } else {
                    0int
                })
                &&& count_cells(n.board, revealed_mine()) + (if revealed_mine()(self.cell(p)) {
                    1int
                } else {
                    0int
                }) == count_cells(self.board, revealed_mine()) + (if revealed_mine()(c) {
                    1int
                } else {
                    0int
                })
            }),
    {
        let n = self.with_status(p, s);
        let c = Cell { status: s, value: self.cell(p).value };
        lemma_count_update(self.board, p, c, mined());
        lemma_count_update(self.board, p, c, flagged());
        lemma_count_update(self.board, p, c, covered());
        lemma_count_update(self.board, p, c, revealed_safe());
        lemma_count_update(self.board, p, c, revealed_mine());
        assert forall|x: int| 0 <= x < self.columns implies #[trigger] n.board[x].len() == self.rows by {
            assert(self.board[x].len() == self.rows);
        }
        lemma_numbers_kept(self.board, n.board, self.columns, self.rows);
    }

    /// Flagging or unflagging keeps the invariant.
    pub proof fn lemma_toggled_wf(self, p: Pos)
        requires
            self.wf(),
            self.in_bounds(p),
        ensures
            self.toggled(p).wf(),
    {
        self.lemma_with_status(p, CellStatus::Flagged);
        self.lemma_with_status(p, CellStatus::Covered);
    }

    /// `path` is a walk that a flood fill can take: each step goes from a
    /// covered cell with no mine around it to a covered neighbour.
    pub open spec fn fill_path(self, path: Seq<Pos>) -> bool {
        &&& path.len() > 0
        &&& forall|i: int|
            0 <= i < path.len() ==> self.in_bounds(#[trigger] path[i]) && self.cell(
                path[i],
            ).status is Covered
        &&& forall|i: int|
            0 <= i < path.len() - 1 ==> self.cell(#[trigger] path[i]).value == CellValue::Number(
                0,
            ) && neighbor_seq(self.columns, self.rows, path[i].0, path[i].1).contains(path[i + 1])
    }

    /// A flood fill from `start` reaches `p`.
    pub open spec fn reaches(self, start: Pos, p: Pos) -> bool {
        exists|path: Seq<Pos>| #[trigger]
            self.fill_path(path) && path[0] == start && path.last() == p
    }

    /// The cells that revealing `start` opens: the connected region of covered
    /// zero cells around it, with the numbered cells that border them.
    pub open spec fn fill_region(self, start: Pos) -> Set<Pos> {
        Set::new(|p: Pos| self.reaches(start, p))
    }

    /// What `reveal` makes of the game.
    pub open spec fn revealed(self, p: Pos) -> GameView {
        if !self.active() || !(self.cell(p).status is Covered) {
            self
        } else if self.cell(p).value is Mined {
            GameView { status: GameStatus::Lost, ..self.with_status(p, CellStatus::Revealed) }
        } else {
            let b = reveal_region(self.board, self.fill_region(p));
            let n = count_cells(b, revealed_safe());
            GameView {
                board: b,
                revealed_count: n as usize,
                status: if n == self.safe_total() {
                    GameStatus::Won
                } else {
                    self.status
                },
                ..self
            }
        }
    }

    /// Every cell that a flood fill from a cell without a mine reaches holds
    /// no mine either.
    pub proof fn lemma_region_safe(self, start: Pos, p: Pos)
        requires
            self.wf(),
            self.cell(start).value is Number,
            self.reaches(start, p),
        ensures
            self.cell(p).value is Number,
            self.in_bounds(p),
            self.cell(p).status is Covered,
    {
        let path = choose|path: Seq<Pos>| #[trigger]
            self.fill_path(path) && path[0] == start && path.last() == p;
        let n = path.len();
        assert(self.in_bounds(path[n - 1]));
        if n > 1 {
            let prev = path[n - 2];
            let s = neighbor_seq(self.columns, self.rows, prev.0, prev.1);
            assert(self.cell(prev).value == CellValue::Number(0));
            assert(self.in_bounds(prev));
            assert(mines_around(self.board, self.columns, self.rows, prev.0, prev.1) == 0);
            lemma_no_mines_among(self.board, s);
            assert(s.contains(path[n - 1]));
        }
    }

    /// A flood fill that reaches a covered zero cell goes on to its covered
    /// neighbours.
    pub proof fn lemma_reach_step(self, start: Pos, p: Pos, q: Pos)
        requires
            self.reaches(start, p),
            self.cell(p).value == CellValue::Number(0),
            neighbor_seq(self.columns, self.rows, p.0, p.1).contains(q),
            self.cell(q).status is Covered,
            self.in_bounds(p),
        ensures
            self.reaches(start, q),
    {
        let path = choose|path: Seq<Pos>| #[trigger]
            self.fill_path(path) && path[0] == start && path.last() == p;
        lemma_neighbors_in_grid(self.columns, self.rows, p.0, p.1);
        let path2 = path.push(q);
        assert(path2[path.len() as int] == q);
        assert forall|i: int| 0 <= i < path2.len() implies self.in_bounds(#[trigger] path2[i])
            && self.cell(path2[i]).status is Covered by {
            if i < path.len() {
                assert(path2[i] == path[i]);
            }
        }
        assert forall|i: int| 0 <= i < path2.len() - 1 implies self.cell(#[trigger] path2[i]).value
            == CellValue::Number(0) && neighbor_seq(
            self.columns,
            self.rows,
            path2[i].0,
            path2[i].1,
        ).contains(path2[i + 1]) by {
            assert(path2[i] == path[i]);
            if i < path.len() - 1 {
                assert(path2[i + 1] == path[i + 1]);
            }
        }
        assert(self.fill_path(path2));
    }

    /// The cells without a mine number `safe_total`.
    pub proof fn lemma_safe_count(self)
        requires
            self.wf(),
        ensures
            count_cells(self.board, safe()) == self.safe_total(),
    {
        lemma_count_split(self.board, mined(), safe());
        lemma_total_cells(self.board, self.columns, self.rows);
    }

    /// The game after revealing, one after the other, the cells listed in `s`.
    pub open spec fn reveal_each(self, s: Seq<Pos>) -> GameView
        decreases s.len(),
    {
        if s.len() == 0 {
            self
        } else {
            self.reveal_each(s.drop_last()).revealed(s.last())
        }
    }

    /// What `chord_reveal` makes of the game: on a revealed number with as
    /// many flags around it, each neighbour is revealed in turn.
    pub open spec fn chorded(self, p: Pos) -> GameView {
        let c = self.cell(p);
        let around = neighbor_seq(self.columns, self.rows, p.0, p.1);
        if self.active() && c.status is Revealed && c.value is Number && flags_among(
            self.board,
            around,
        ) == c.value->Number_0 {
            self.reveal_each(around)
        } else {
            self
        }
    }

    /// What `set_pressing` makes of the game.
    pub open spec fn pressed(self, down: bool) -> GameView {
        if self.active() {
            GameView {
                status: if down {
                    GameStatus::Pressing
                } else {
                    GameStatus::Playing
                },
                ..self
            }
        } else {
            self
        }
    }

    /// What `toggle_flag` makes of the game.
    pub open spec fn toggled(self, p: Pos) -> GameView {
        if !self.active() {
            self
        } else {
            match self.cell(p).status {
                CellStatus::Covered => if self.flag_count < self.mine_count {
                    GameView {
                        flag_count: (self.flag_count + 1) as usize,
                        ..self.with_status(p, CellStatus::Flagged)
                    }
                } else {
                    self
                },
                CellStatus::Flagged => GameView {
                    flag_count: (self.flag_count - 1) as usize,
                    ..self.with_status(p, CellStatus::Covered)
                },
                CellStatus::Revealed => self,
            }
        }
    }
}

/// A game of Minesweeper.
pub struct Game {
    board: Vec<Vec<Cell>>,
    columns: usize,
    rows: usize,
    mine_count: usize,
    status: GameStatus,
    revealed_count: usize,
    flag_count: usize,
}

impl View for Game {
    type V = GameView;

    closed spec fn view(&self) -> GameView {
        GameView {
            board: board_of(self.board@),
            columns: self.columns,
            rows: self.rows,
            mine_count: self.mine_count,
            status: self.status,
            revealed_count: self.revealed_count,
            flag_count: self.flag_count,
        }
    }
}

/// Relies on rand's `SliceRandom::shuffle` with `rand::thread_rng`: it swaps
/// the elements in place, so what comes out is a permutation of what went in.
/// (`thread_rng` panics only where the system cannot seed it.)
#[verifier::external_body]
fn shuffle_positions(v: &mut Vec<Pos>)
    ensures
        final(v)@.to_multiset() == old(v)@.to_multiset(),
{
    v.shuffle(&mut rand::thread_rng());
}

/// Every position of a grid of `columns` columns and `rows` rows, once each.
fn all_positions(columns: usize, rows: usize) -> (r: Vec<Pos>)
    requires
        columns * rows <= usize::MAX,
    ensures
        r@.len() == columns * rows,
        r@.no_duplicates(),
        forall|i: int| 0 <= i < r@.len() ==> in_bounds(columns, rows, #[trigger] r@[i]),
{
    let mut r: Vec<Pos> = Vec::new();
    let mut y: usize = 0;
    while y < rows
        invariant
            columns * rows <= usize::MAX,
            y <= rows,
            r@.len() == y * columns,
            r@.no_duplicates(),
            forall|i: int| 0 <= i < r@.len() ==> in_bounds(columns, rows, #[trigger] r@[i]) && r@[i].1 < y,
        decreases rows - y,
    {
        let mut x: usize = 0;
        assert(y * columns + columns == (y + 1) * columns) by (nonlinear_arith);
        assert((y + 1) * columns <= columns * rows) by (nonlinear_arith)
            requires
                y < rows,
        ;
        while x < columns
            invariant
                columns * rows <= usize::MAX,
                y < rows,
                x <= columns,
                r@.len() == y * columns + x,
                y * columns + columns <= columns * rows,
                r@.no_duplicates(),
                forall|i: int|
                    0 <= i < r@.len() ==> in_bounds(columns, rows, #[trigger] r@[i]) && (r@[i].1 < y
                        || (r@[i].1 == y && r@[i].0 < x)),
            decreases columns - x,
        {
            let ghost r0 = r@;
            r.push((x, y));
            assert(r@[r0.len() as int] == (x, y));
            assert forall|i: int, j: int| 0 <= i < r@.len() && 0 <= j < r@.len() && i != j implies r@[i]
                != r@[j] by {
                if i < r0.len() && j < r0.len() {
                    assert(r0[i] != r0[j]);
                } else if i < r0.len() {
                    assert(r@[i] == r0[i]);
                } else if j < r0.len() {
                    assert(r@[j] == r0[j]);
                }
            }
            x = x + 1;
        }
        y = y + 1;
    }
    assert(rows * columns == columns * rows) by (nonlinear_arith);
    r
}

impl Game {
    pub open spec fn wf(&self) -> bool {
        self@.wf()
    }

    /// A new game of `rows` rows, `columns` columns and `mine_count` mines,
    /// placed at random: every set of `mine_count` distinct positions is as
    /// likely. A board without cells, or with no fewer mines than cells, is
    /// refused.
    pub fn generate(rows: usize, columns: usize, mine_count: usize) -> (r: Result<Game, ConfigError>)
        requires
            columns * rows <= usize::MAX,
        ensures
            r is Ok <==> (0 < rows && 0 < columns && mine_count < columns * rows),
            r is Ok ==> r->Ok_0@.fresh_with(columns, rows, mine_count),
            r is Err ==> r->Err_0 == if rows == 0 || columns == 0 {
                ConfigError::EmptyBoard
            } else {
                ConfigError::TooManyMines
            },
    {
        if rows == 0 || columns == 0 {
            return Err(ConfigError::EmptyBoard);
        }
        if mine_count >= columns * rows {
            return Err(ConfigError::TooManyMines);
        }
        Ok(Game::with_random_mines(rows, columns, mine_count))
    }

    /// A game with `mine_count` mines placed at random.
    fn with_random_mines(rows: usize, columns: usize, mine_count: usize) -> (g: Game)
        requires
            0 < rows,
            0 < columns,
            columns * rows <= usize::MAX,
            mine_count < columns * rows,
        ensures
            g@.fresh_with(columns, rows, mine_count),
    {
        let mut positions = all_positions(columns, rows);
        let ghost before = positions@;
        shuffle_positions(&mut positions);
        proof {
            before.to_multiset_ensures();
            positions@.to_multiset_ensures();
            before.lemma_multiset_has_no_duplicates();
            positions@.lemma_multiset_has_no_duplicates_conv();
            assert forall|i: int| 0 <= i < positions@.len() implies in_bounds(columns, rows, #[trigger] positions@[i]) by {
                let q = positions@[i];
                assert(positions@.contains(q));
                assert(positions@.to_multiset().count(q) > 0);
                assert(before.to_multiset().count(q) > 0);
                assert(before.contains(q));
                let j = choose|j: int| 0 <= j < before.len() && before[j] == q;
                assert(in_bounds(columns, rows, before[j]));
            }
        }
        let mut mines: Vec<Pos> = Vec::new();
        let mut i: usize = 0;
        while i < mine_count
            invariant
                i <= mine_count,
                mine_count <= positions@.len(),
                mines@ == positions@.take(i as int),
            decreases mine_count - i,
        {
            mines.push(positions[i]);
            i = i + 1;
            assert(mines@ =~= positions@.take(i as int));
        }
        assert forall|a: int, b: int| 0 <= a < mines@.len() && 0 <= b < mines@.len() && a != b implies mines@[a] != mines@[b] by {
            assert(mines@[a] == positions@[a] && mines@[b] == positions@[b]);
        }
        assert forall|k: int| 0 <= k < mines@.len() implies in_bounds(columns, rows, #[trigger] mines@[k]) by {
            assert(mines@[k] == positions@[k]);
        }
        Game::with_mines(rows, columns, &mines)
    }

    /// Starts the game over: a new board of the same size with as many mines,
    /// placed at random.
    pub fn reset(&mut self)
        requires
            old(self).wf(),
        ensures
            final(self)@.fresh_with(old(self)@.columns, old(self)@.rows, old(self)@.mine_count),
    {
        *self = Game::with_random_mines(self.rows, self.columns, self.mine_count);
    }

    /// The window title for the game's state.
    pub fn title(&self) -> (r: &'static str)
        ensures
            self@.status is Won ==> r@ == "Minesweeper - You Won"@,
            self@.status is Lost ==> r@ == "Minesweeper - You Lost"@,
            self@.active() ==> r@ == "Minesweeper"@,
    {
        match self.status {
            GameStatus::Won => "Minesweeper - You Won",
            GameStatus::Lost => "Minesweeper - You Lost",
            _ => "Minesweeper",
        }
    }

    /// Carries out what a message from the player asks.
    pub fn update(&mut self, message: Message)
        requires
            old(self).wf(),
            message_in_bounds(old(self)@, message),
        ensures
            final(self).wf(),
            match message {
                Message::NewGame => final(self)@.fresh_with(
                    old(self)@.columns,
                    old(self)@.rows,
                    old(self)@.mine_count,
                ),
                Message::Pressing(down) => final(self)@ == old(self)@.pressed(down),
                Message::Reveal(x, y) => final(self)@ == old(self)@.revealed((x, y)),
                Message::SpecialReveal(x, y) => final(self)@ == old(self)@.chorded((x, y)),
                Message::Flag(x, y) => final(self)@ == old(self)@.toggled((x, y)),
            },
    {
        match message {
            Message::NewGame => self.reset(),
            Message::Pressing(down) => self.set_pressing(down),
            Message::Reveal(x, y) => self.reveal_cell(x, y),
            Message::SpecialReveal(x, y) => self.chord_reveal(x, y),
            Message::Flag(x, y) => self.toggle_flag(x, y),
        }
    }

    /// A game on a board of `columns` columns and `rows` rows with a mine at
    /// each of the distinct positions `mines` and nowhere else.
    pub fn with_mines(rows: usize, columns: usize, mines: &Vec<Pos>) -> (g: Game)
        requires
            0 < rows,
            0 < columns,
            columns * rows <= usize::MAX,
            mines@.len() < columns * rows,
            forall|i: int| 0 <= i < mines@.len() ==> in_bounds(columns, rows, #[trigger] mines@[i]),
            mines@.no_duplicates(),
        ensures
            g@.fresh_with(columns, rows, mines@.len() as usize),
            forall|p: Pos| #[trigger]
                g@.in_bounds(p) ==> (g@.cell(p).value is Mined <==> mines@.contains(p)),
    {
        let mut board = new_board(columns, rows);
        proof {
            let b = board_of(board@);
            assert forall|x: int, y: int| 0 <= x < b.len() && 0 <= y < b[x].len() implies !mined()(#[trigger] b[x][y]) by {
                assert(in_bounds(columns, rows, (x as usize, y as usize)));
            }
            lemma_count_none(b, mined());
        }
        place_mines(&mut board, columns, rows, mines);
        add_numbers(&mut board, columns, rows);
        let g = Game {
            board,
            columns,
            rows,
            mine_count: mines.len(),
            status: GameStatus::Playing,
            revealed_count: 0,
            flag_count: 0,
        };
        proof {
            let b = g@.board;
            assert forall|x: int, y: int| 0 <= x < b.len() && 0 <= y < b[x].len() implies #[trigger] b[x][y].status is Covered by {
                assert(in_bounds(columns, rows, (x as usize, y as usize)));
            }
            lemma_count_none(b, flagged());
            lemma_count_none(b, revealed_safe());
            lemma_count_none(b, revealed_mine());
        }
        g
    }

    fn set_status(&mut self, x: usize, y: usize, s: CellStatus)
        requires
            old(self)@.in_bounds((x, y)),
            shaped(old(self)@.board, old(self)@.columns, old(self)@.rows),
        ensures
            final(self)@ == old(self)@.with_status((x, y), s),
    {
        self.board[x][y].status = s;
        assert(self@.board =~~= old(self)@.with_status((x, y), s).board);
    }

    /// Reveals the cell at `(x, y)`. A mine loses the game. A cell without a
    /// mine opens, and with it the region that a flood fill reaches: the
    /// covered zero cells connected to it and the cells that border them;
    /// flagged cells stop the fill. Revealing the last cell without a mine wins.
    /// Nothing changes once the game is over, nor on a cell that is not covered.
    pub fn reveal_cell(&mut self, x: usize, y: usize)
        requires
            old(self).wf(),
            old(self)@.in_bounds((x, y)),
        ensures
            final(self).wf(),
            final(self)@ == old(self)@.revealed((x, y)),
    {
        if !(matches!(self.status, GameStatus::Playing) || matches!(self.status, GameStatus::Pressing)) {
            return;
        }
        let c = self.board[x][y];
        if !matches!(c.status, CellStatus::Covered) {
            return;
        }
        if matches!(c.value, CellValue::Mined) {
            proof {
                self@.lemma_with_status((x, y), CellStatus::Revealed);
            }
            self.set_status(x, y, CellStatus::Revealed);
            self.status = GameStatus::Lost;
            return;
        }
        self.flood_fill(x, y);
    }

    /// Reveals the region that a flood fill from the covered cell `(x, y)`,
    /// which holds no mine, reaches.
    fn flood_fill(&mut self, x: usize, y: usize)
        requires
            old(self).wf(),
            old(self)@.active(),
            old(self)@.in_bounds((x, y)),
            old(self)@.cell((x, y)).status is Covered,
            old(self)@.cell((x, y)).value is Number,
        ensures
            final(self).wf(),
            final(self)@ == old(self)@.revealed((x, y)),
    {
        let ghost g0 = self@;
        let ghost start: Pos = (x, y);
        proof {
            lemma_fill_init(g0, start);
        }
        let safe_total = self.columns * self.rows - self.mine_count;
        let mut stack: Vec<Pos> = Vec::new();
        stack.push((x, y));
        while stack.len() > 0
            invariant
                g0.wf(),
                g0 == old(self)@,
                start == (x, y),
                safe_total == g0.safe_total(),
                fill_inv(g0, start, self@, stack@),
            decreases count_cells(self@.board, covered()), stack@.len(),
        {
            let ghost g = self@;
            let ghost s0 = stack@;
            proof {
                lemma_fill_bounds(g0, start, g, s0);
                assert(s0[s0.len() - 1] == s0.last());
            }
            let p = stack.pop().unwrap();
            assert(p == s0.last() && stack@ == s0.drop_last());
            assert(g.in_bounds(p));
            assert(self.board@[p.0 as int]@ == g.board[p.0 as int]);
            let c = self.board[p.0][p.1];
            if !matches!(c.status, CellStatus::Covered) {
                proof {
                    lemma_fill_skip(g0, start, g, s0);
                }
                continue;
            }
            proof {
                lemma_fill_progress(g0, start, g, s0);
            }
            if self.reveal_counted(p, safe_total) {
                proof {
                    lemma_fill_win(g0, start, g, s0);
                }
                return;
            }
            if matches!(c.value, CellValue::Number(0)) {
                let neighbors = with_surrounding_cells(p.0, p.1, self.columns, self.rows);
                self.push_covered(&neighbors, &mut stack);
            }
            proof {
                lemma_fill_continue(g0, start, g, s0, stack@);
            }
        }
        proof {
            assert(stack@ =~= Seq::<Pos>::empty());
            lemma_fill_done(g0, start, self@);
        }
    }

    /// Reveals the cell at `p` and counts it; the game is won where that
    /// makes `safe_total` revealed cells.
    fn reveal_counted(&mut self, p: Pos, safe_total: usize) -> (won: bool)
        requires
            old(self)@.in_bounds(p),
            shaped(old(self)@.board, old(self)@.columns, old(self)@.rows),
            old(self)@.revealed_count < safe_total,
        ensures
            won == (fill_step(old(self)@, p).revealed_count == safe_total),
            won ==> final(self)@ == (GameView { status: GameStatus::Won, ..fill_step(old(self)@, p) }),
            !won ==> final(self)@ == fill_step(old(self)@, p),
    {
        self.set_status(p.0, p.1, CellStatus::Revealed);
        self.revealed_count = self.revealed_count + 1;
        if self.revealed_count == safe_total {
            self.status = GameStatus::Won;
            true
        } else {
            false
        }
    }

    /// Pushes onto `stack` each of `cells` that is covered.
    fn push_covered(&self, cells: &Vec<Pos>, stack: &mut Vec<Pos>)
        requires
            shaped(self@.board, self@.columns, self@.rows),
            forall|i: int| 0 <= i < cells@.len() ==> self@.in_bounds(#[trigger] cells@[i]),
        ensures
            pushed_covered(self@, cells@, old(stack)@, final(stack)@),
    {
        let ghost s0 = stack@;
        let mut k: usize = 0;
        while k < cells.len()
            invariant
                shaped(self@.board, self@.columns, self@.rows),
                forall|i: int| 0 <= i < cells@.len() ==> self@.in_bounds(#[trigger] cells@[i]),
                0 <= k <= cells@.len(),
                stack@.len() >= s0.len(),
                forall|i: int| 0 <= i < s0.len() ==> #[trigger] stack@[i] == s0[i],
                forall|i: int|
                    s0.len() <= i < stack@.len() ==> cells@.contains(#[trigger] stack@[i])
                        && self@.cell(stack@[i]).status is Covered,
                forall|j: int|
                    0 <= j < k && self@.cell(#[trigger] cells@[j]).status is Covered
                        ==> stack@.contains(cells@[j]),
            decreases cells@.len() - k,
        {
            let q = cells[k];
            assert(self@.in_bounds(cells@[k as int]));
            if matches!(self.status_at(q), CellStatus::Covered) {
                let ghost s1 = stack@;
                stack.push(q);
                assert(stack@[s1.len() as int] == q);
                assert(cells@.contains(q));
                assert(forall|r: Pos| s1.contains(r) ==> stack@.contains(r)) by {
                    assert forall|r: Pos| s1.contains(r) implies stack@.contains(r) by {
                        let i = choose|i: int| 0 <= i < s1.len() && s1[i] == r;
                        assert(stack@[i] == r);
                    }
                }
            }
            k = k + 1;
        }
        assert forall|q: Pos|
            #[trigger] cells@.contains(q) && self@.cell(q).status is Covered implies stack@.contains(q) by {
            let j = choose|j: int| 0 <= j < cells@.len() && cells@[j] == q;
        }
        reveal(pushed_covered);
    }

    /// On a revealed number with exactly as many flags around it, reveals each
    /// neighbour in turn, as `reveal_cell` does: a wrong flag loses the game.
    /// Nothing changes otherwise, nor once the game is over.
    pub fn chord_reveal(&mut self, x: usize, y: usize)
        requires
            old(self).wf(),
            old(self)@.in_bounds((x, y)),
        ensures
            final(self).wf(),
            final(self)@ == old(self)@.chorded((x, y)),
    {
        if !(matches!(self.status, GameStatus::Playing) || matches!(self.status, GameStatus::Pressing)) {
            return;
        }
        let c = self.cell(x, y);
        if !matches!(c.status, CellStatus::Revealed) {
            return;
        }
        let number = match c.value {
            CellValue::Number(n) => n,
            CellValue::Mined => {
                return;
            },
        };
        let neighbors = with_surrounding_cells(x, y, self.columns, self.rows);
        let flags = self.flags_among(&neighbors);
        if flags != number as usize {
            return;
        }
        self.reveal_all(&neighbors);
    }

    /// Reveals each of `cells` in turn, as `reveal_cell` does.
    fn reveal_all(&mut self, cells: &Vec<Pos>)
        requires
            old(self).wf(),
            forall|i: int| 0 <= i < cells@.len() ==> old(self)@.in_bounds(#[trigger] cells@[i]),
        ensures
            final(self).wf(),
            final(self)@ == old(self)@.reveal_each(cells@),
    {
        let ghost g0 = self@;
        let mut k: usize = 0;
        while k < cells.len()
            invariant
                self.wf(),
                self@.columns == g0.columns,
                self@.rows == g0.rows,
                0 <= k <= cells@.len(),
                forall|i: int| 0 <= i < cells@.len() ==> g0.in_bounds(#[trigger] cells@[i]),
                self@ == g0.reveal_each(cells@.take(k as int)),
            decreases cells@.len() - k,
        {
            let q = cells[k];
            assert(cells@.take(k + 1).drop_last() == cells@.take(k as int));
            assert(g0.in_bounds(cells@[k as int]));
            if matches!(self.status_at(q), CellStatus::Covered) {
                self.reveal_cell(q.0, q.1);
            }
            k = k + 1;
        }
        assert(cells@.take(cells@.len() as int) == cells@);
    }

    /// The status of the cell at `p`.
    fn status_at(&self, p: Pos) -> (r: CellStatus)
        requires
            shaped(self@.board, self@.columns, self@.rows),
            self@.in_bounds(p),
        ensures
            r == self@.cell(p).status,
    {
        assert(self.board@[p.0 as int]@ == self@.board[p.0 as int]);
        self.board[p.0][p.1].status
    }

    /// The number of flagged cells among `cells`.
    fn flags_among(&self, cells: &Vec<Pos>) -> (r: usize)
        requires
            shaped(self@.board, self@.columns, self@.rows),
            forall|i: int| 0 <= i < cells@.len() ==> self@.in_bounds(#[trigger] cells@[i]),
            cells@.len() <= 8,
        ensures
            r == flags_among(self@.board, cells@),
    {
        let mut r: usize = 0;
        let mut k: usize = 0;
        while k < cells.len()
            invariant
                shaped(self@.board, self@.columns, self@.rows),
                forall|i: int| 0 <= i < cells@.len() ==> self@.in_bounds(#[trigger] cells@[i]),
                cells@.len() <= 8,
                0 <= k <= cells@.len(),
                r == flags_among(self@.board, cells@.take(k as int)),
                r <= k,
            decreases cells@.len() - k,
        {
            let q = cells[k];
            assert(cells@.take(k + 1).drop_last() == cells@.take(k as int));
            assert(self@.in_bounds(cells@[k as int]));
            if matches!(self.status_at(q), CellStatus::Flagged) {
                r = r + 1;
            }
            k = k + 1;
        }
        assert(cells@.take(cells@.len() as int) == cells@);
        r
    }

    /// Marks a mouse button as held down or let go; only while the game is on.
    pub fn set_pressing(&mut self, down: bool)
        requires
            old(self).wf(),
        ensures
            final(self).wf(),
            final(self)@ == old(self)@.pressed(down),
    {
        if matches!(self.status, GameStatus::Playing) || matches!(self.status, GameStatus::Pressing) {
            self.status = if down {
                GameStatus::Pressing
            } else {
                GameStatus::Playing
            };
        }
    }

    /// The cell at `(x, y)`.
    pub fn cell(&self, x: usize, y: usize) -> (r: Cell)
        requires
            self.wf(),
            self@.in_bounds((x, y)),
        ensures
            r == self@.cell((x, y)),
    {
        self.board[x][y]
    }

    pub fn status(&self) -> (r: GameStatus)
        ensures
            r == self@.status,
    {
        self.status
    }

    /// The number of revealed cells without a mine.
    pub fn revealed_count(&self) -> (r: usize)
        ensures
            r == self@.revealed_count,
    {
        self.revealed_count
    }

    /// The number of flags on the board.
    pub fn flag_count(&self) -> (r: usize)
        ensures
            r == self@.flag_count,
    {
        self.flag_count
    }

    pub fn mine_count(&self) -> (r: usize)
        ensures
            r == self@.mine_count,
    {
        self.mine_count
    }

    pub fn columns(&self) -> (r: usize)
        ensures
            r == self@.columns,
    {
        self.columns
    }

    pub fn rows(&self) -> (r: usize)
        ensures
            r == self@.rows,
    {
        self.rows
    }

    /// The mines that no flag marks yet, as a player counts them: the mines
    /// less the flags.
    pub fn remaining_mines(&self) -> (r: usize)
        requires
            self.wf(),
        ensures
            r == self@.mine_count - self@.flag_count,
    {
        self.mine_count - self.flag_count
    }

    /// Puts a flag on a covered cell, or takes it off a flagged one; a flag is
    /// put only while fewer flags stand than there are mines. Nothing changes
    /// once the game is over, nor on a revealed cell.
    pub fn toggle_flag(&mut self, x: usize, y: usize)
        requires
            old(self).wf(),
            old(self)@.in_bounds((x, y)),
        ensures
            final(self).wf(),
            final(self)@ == old(self)@.toggled((x, y)),
    {
        if !(matches!(self.status, GameStatus::Playing) || matches!(self.status, GameStatus::Pressing)) {
            return;
        }
        proof {
            self@.lemma_toggled_wf((x, y));
            self@.lemma_with_status((x, y), CellStatus::Covered);
        }
        let c = self.board[x][y];
        match c.status {
            CellStatus::Covered => {
                if self.flag_count == self.mine_count {
                    return;
                }
                self.set_status(x, y, CellStatus::Flagged);
                self.flag_count = self.flag_count + 1;
            },
            CellStatus::Flagged => {
                self.set_status(x, y, CellStatus::Covered);
                self.flag_count = self.flag_count - 1;
            },
            CellStatus::Revealed => {},
        }
    }
}

} // verus!
